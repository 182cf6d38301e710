//! Choosing the challenged leaves of an epoch: a generator seeded from the
//! epoch's block hash and the prover id draws leaf indices until enough
//! distinct ones are chosen.

use crate::encoding::{sha256_bytes, sha256_digest};
use crate::field::Fr;
use rand::{Rng, SeedableRng};
use rand::rngs::ThreadRng;
use rand_chacha::ChaCha8Rng;
use vstd::prelude::*;
use vstd::string::StringSliceAdditionalSpecFns;

verus! {

#[verifier::external_type_specification]
#[verifier::external_body]
pub struct ExChaCha8Rng(ChaCha8Rng);

/// A ChaCha8 generator, with the seed it was made from and the bounds of
/// the draws it has made so far, in order.
pub struct SeededGenerator {
    rng: ChaCha8Rng,
    seed: Ghost<Seq<u8>>,
    drawn: Ghost<Seq<usize>>,
}

impl SeededGenerator {
    /// The seed the generator was made from.
    pub closed spec fn seed(&self) -> Seq<u8> {
        self.seed@
    }

    /// The bounds of the draws made so far, in order.
    pub closed spec fn drawn(&self) -> Seq<usize> {
        self.drawn@
    }
}

/// The value `gen_range(0..bound)`, drawn as a 64-bit integer, returns from
/// a ChaCha8 generator made by `from_seed(seed)` after one such draw below
/// each bound of `earlier`, in order.
pub uninterp spec fn chacha_gen_range(seed: Seq<u8>, earlier: Seq<usize>, bound: usize) -> usize;

/// `rand_chacha` `ChaCha8Rng::from_seed`: the generator seeded with `seed`,
/// nothing drawn yet.
#[verifier::external_body]
fn chacha_from_seed(seed: [u8; 32]) -> (r: SeededGenerator)
    ensures
        r.seed() == seed@,
        r.drawn() == Seq::<usize>::empty(),
{
    SeededGenerator { rng: ChaCha8Rng::from_seed(seed), seed: Ghost(seed@), drawn: Ghost(Seq::empty()) }
}

/// `rand` `Rng::gen_range(0..bound)` on the seeded generator, drawn as a
/// 64-bit integer: the value `chacha_gen_range` names for the seed, the
/// earlier draws and `bound`, which lies below `bound`; the draw is
/// recorded.
#[verifier::external_body]
fn draw_below(g: &mut SeededGenerator, bound: usize) -> (r: usize)
    requires
        bound > 0,
    ensures
        r == chacha_gen_range(old(g).seed(), old(g).drawn(), bound),
        r < bound,
        final(g).seed() == old(g).seed(),
        final(g).drawn() == old(g).drawn().push(bound),
{
    let r = g.rng.gen_range(0..bound as u64) as usize;
    g.drawn = Ghost(g.drawn@.push(bound));
    r
}

/// `chosen` with `r` added at the end unless it is already there.
pub open spec fn with_distinct(chosen: Seq<usize>, r: usize) -> Seq<usize> {
    if chosen.contains(r) {
        chosen
    } else {
        chosen.push(r)
    }
}

/// Adds a drawn index to the chosen ones unless it was chosen before.
pub fn add_distinct(chosen: &mut Vec<usize>, r: usize)
    ensures
        final(chosen)@ == with_distinct(old(chosen)@, r),
{
    let mut seen = false;
    for k in 0..chosen.len()
        invariant
            seen == exists|m: int| 0 <= m < k && chosen@[m] == r,
    {
        if chosen[k] == r {
            seen = true;
        }
    }
    if !seen {
        chosen.push(r);
    } else {
        proof {
            let m = choose|m: int| 0 <= m < chosen@.len() && chosen@[m] == r;
            assert(chosen@.contains(r));
        }
    }
}

/// Adding distinct draws keeps the chosen indices free of repeats and below
/// the bound they were drawn under.
proof fn lemma_with_distinct_keeps(chosen: Seq<usize>, r: usize, bound: usize)
    requires
        chosen.no_duplicates(),
        forall|k: int| 0 <= k < chosen.len() ==> #[trigger] chosen[k] < bound,
        r < bound,
    ensures
        with_distinct(chosen, r).no_duplicates(),
        forall|k: int| 0 <= k < with_distinct(chosen, r).len() ==> #[trigger] with_distinct(chosen, r)[k] < bound,
        with_distinct(chosen, r).len() <= chosen.len() + 1,
{
    if !chosen.contains(r) {
        let c = chosen.push(r);
        assert forall|a: int, b: int| 0 <= a < b < c.len() implies c[a] != c[b] by {
            if b == chosen.len() {
                assert(c[a] == chosen[a]);
                if c[a] == r {
                    assert(chosen.contains(r));
                }
            } else {
                assert(chosen[a] != chosen[b]);
            }
        }
    }
}

/// The indices chosen after `draws` draws below `num_leaves` from the
/// generator seeded with `seed`: each draw is added unless already chosen,
/// and drawing stops once `count` are chosen.
pub open spec fn drawn_challenges(seed: Seq<u8>, num_leaves: usize, count: nat, draws: nat) -> Seq<usize>
    decreases draws,
{
    if draws == 0 {
        Seq::empty()
    } else {
        let prev = drawn_challenges(seed, num_leaves, count, (draws - 1) as nat);
        if prev.len() >= count {
            prev
        } else {
            with_distinct(
                prev,
                chacha_gen_range(seed, Seq::new((draws - 1) as nat, |i: int| num_leaves), num_leaves),
            )
        }
    }
}

/// Once `count` indices are chosen, further draws change nothing.
proof fn lemma_drawn_settled(seed: Seq<u8>, num_leaves: usize, count: nat, d1: nat, d2: nat)
    requires
        d1 <= d2,
        drawn_challenges(seed, num_leaves, count, d1).len() >= count,
    ensures
        drawn_challenges(seed, num_leaves, count, d2) == drawn_challenges(seed, num_leaves, count, d1),
    decreases d2,
{
    if d2 > d1 {
        lemma_drawn_settled(seed, num_leaves, count, d1, (d2 - 1) as nat);
    }
}

/// The generator seed of an epoch: the SHA-256 digest of the block hash's
/// text followed by the prover id's encoding.
pub fn challenge_seed_bytes(block_hash: &str, prover_id: &Fr) -> (r: [u8; 32])
    ensures
        r@ == sha256_digest(block_hash.spec_bytes() + prover_id.repr_bytes()),
{
    let id = prover_id.to_repr();
    let text = block_hash.as_bytes();
    let mut data: Vec<u8> = Vec::new();
    for i in 0..text.len()
        invariant
            data@ == text@.take(i as int),
    {
        data.push(text[i]);
        proof {
            assert(data@ =~= text@.take(i + 1));
        }
    }
    for i in 0..32
        invariant
            data@ == text@ + id@.take(i as int),
    {
        data.push(id[i]);
        proof {
            assert(data@ =~= text@ + id@.take(i + 1));
        }
    }
    proof {
        assert(text@.take(text@.len() as int) =~= text@);
        assert(id@.take(32) =~= id@);
    }
    sha256_bytes(data.as_slice())
}

/// Draws distinct leaf indices below `num_leaves` from the generator seeded
/// for the epoch, until `count` are chosen; draws already chosen are
/// skipped and the indices come in the order drawn. The drawing gives up
/// after `usize::MAX` draws.
pub fn select_challenges(block_hash: &str, prover_id: &Fr, count: usize, num_leaves: usize) -> (r: Vec<usize>)
    requires
        num_leaves > 0,
        count <= num_leaves,
    ensures
        r@ == drawn_challenges(
            sha256_digest(block_hash.spec_bytes() + prover_id.repr_bytes()),
            num_leaves,
            count as nat,
            usize::MAX as nat,
        ),
        r@.len() <= count,
        r@.no_duplicates(),
        forall|k: int| 0 <= k < r@.len() ==> #[trigger] r@[k] < num_leaves,
{
    let seed = challenge_seed_bytes(block_hash, prover_id);
    let ghost s = seed@;
    let mut g = chacha_from_seed(seed);
    let mut challenges: Vec<usize> = Vec::new();
    let mut draws: usize = 0;
    while challenges.len() < count && draws < usize::MAX
        invariant
            num_leaves > 0,
            g.seed() == s,
            g.drawn() == Seq::new(draws as nat, |i: int| num_leaves),
            challenges@ == drawn_challenges(s, num_leaves, count as nat, draws as nat),
            challenges@.len() <= count,
            challenges@.no_duplicates(),
            forall|k: int| 0 <= k < challenges@.len() ==> #[trigger] challenges@[k] < num_leaves,
        decreases usize::MAX - draws,
    {
        let r = draw_below(&mut g, num_leaves);
        proof {
            lemma_with_distinct_keeps(challenges@, r, num_leaves);
            assert(g.drawn() =~= Seq::new((draws + 1) as nat, |i: int| num_leaves));
        }
        add_distinct(&mut challenges, r);
        draws = draws + 1;
    }
    proof {
        if draws < usize::MAX {
            lemma_drawn_settled(s, num_leaves, count as nat, draws as nat, usize::MAX as nat);
        }
    }
    challenges
}


#[verifier::external_type_specification]
#[verifier::external_body]
pub struct ExThreadRng(ThreadRng);

/// `rand` `thread_rng`: the thread's generator, seeded by the system.
#[verifier::external_body]
fn thread_generator() -> ThreadRng {
    rand::thread_rng()
}

/// `rand` `Rng::gen_range(0..bound)` on the thread's generator: a value
/// below `bound`. Which value comes is chance.
#[verifier::external_body]
fn thread_draw_below(rng: &mut ThreadRng, bound: usize) -> (r: usize)
    requires
        bound > 0,
    ensures
        r < bound,
{
    rng.gen_range(0..bound)
}

/// The thread's generator, with the values drawn from it so far, in order.
pub struct ThreadDraws {
    rng: ThreadRng,
    drawn: Ghost<Seq<usize>>,
}

impl ThreadDraws {
    /// The values drawn so far, in order.
    pub closed spec fn drawn(&self) -> Seq<usize> {
        self.drawn@
    }

    /// The thread's generator, nothing drawn yet.
    pub fn new() -> (r: ThreadDraws)
        ensures
            r.drawn() == Seq::<usize>::empty(),
    {
        ThreadDraws { rng: thread_generator(), drawn: Ghost(Seq::empty()) }
    }

    /// Draws a value below `bound`, by chance, and records it.
    pub fn draw(&mut self, bound: usize) -> (r: usize)
        requires
            bound > 0,
        ensures
            r < bound,
            final(self).drawn() == old(self).drawn().push(r),
    {
        let r = thread_draw_below(&mut self.rng, bound);
        proof {
            self.drawn@ = self.drawn@.push(r);
        }
        r
    }
}

/// Adding a draw to the chosen indices adds it to their set.
proof fn lemma_with_distinct_set(chosen: Seq<usize>, r: usize)
    ensures
        with_distinct(chosen, r).to_set() == chosen.to_set().insert(r),
{
    if chosen.contains(r) {
        assert(chosen.to_set().insert(r) =~= chosen.to_set());
    } else {
        assert(chosen.push(r).to_set() =~= chosen.to_set().insert(r)) by {
            assert forall|x: usize| chosen.push(r).to_set().contains(x) <==> chosen.to_set().insert(r).contains(x) by {
                if chosen.push(r).contains(x) {
                    let k = choose|k: int| 0 <= k < chosen.push(r).len() && chosen.push(r)[k] == x;
                    if k < chosen.len() {
                        assert(chosen[k] == x);
                    }
                }
                if chosen.contains(x) {
                    let k = choose|k: int| 0 <= k < chosen.len() && chosen[k] == x;
                    assert(chosen.push(r)[k] == x);
                }
                if x == r {
                    assert(chosen.push(r)[chosen.len() as int] == r);
                }
            }
        }
    }
}

/// Draws shard indices below `shard_count` from `g` until `batch_size`
/// distinct ones are chosen, and returns them in increasing order: the
/// batch is the set of values drawn by this call. Should `usize::MAX` draws
/// not suffice, the batch is the lowest `batch_size` indices instead.
pub fn draw_batch_from(g: &mut ThreadDraws, shard_count: usize, batch_size: usize) -> (r: Vec<usize>)
    requires
        shard_count > 0,
        batch_size <= shard_count,
    ensures
        ({
            let before = old(g).drawn();
            let d = final(g).drawn().skip(before.len() as int);
            &&& final(g).drawn().len() >= before.len()
            &&& final(g).drawn().take(before.len() as int) == before
            &&& forall|k: int| 0 <= k < d.len() ==> #[trigger] d[k] < shard_count
            &&& (r@.to_set() == d.to_set() || (d.len() == usize::MAX && r@ == Seq::new(
                batch_size as nat,
                |i: int| i as usize,
            )))
        }),
        r@.len() == batch_size,
        crate::storage::strictly_increasing(r@),
        forall|k: int| 0 <= k < r@.len() ==> #[trigger] r@[k] < shard_count,
{
    let ghost before = g.drawn();
    let mut challenges: Vec<usize> = Vec::new();
    let mut draws: usize = 0;
    proof {
        assert(g.drawn().skip(before.len() as int) =~= Seq::<usize>::empty());
        assert(challenges@.to_set() =~= Set::<usize>::empty());
        assert(g.drawn().take(before.len() as int) =~= before);
    }
    while challenges.len() < batch_size && draws < usize::MAX
        invariant
            shard_count > 0,
            batch_size <= shard_count,
            g.drawn().len() == before.len() + draws,
            g.drawn().take(before.len() as int) == before,
            forall|k: int| 0 <= k < draws ==> #[trigger] g.drawn().skip(before.len() as int)[k] < shard_count,
            challenges@.to_set() == g.drawn().skip(before.len() as int).to_set(),
            challenges@.len() <= batch_size,
            challenges@.no_duplicates(),
            forall|k: int| 0 <= k < challenges@.len() ==> #[trigger] challenges@[k] < shard_count,
        decreases usize::MAX - draws,
    {
        let ghost prev_drawn = g.drawn();
        let r = g.draw(shard_count);
        proof {
            lemma_with_distinct_keeps(challenges@, r, shard_count);
            lemma_with_distinct_set(challenges@, r);
            let d0 = prev_drawn.skip(before.len() as int);
            let d1 = g.drawn().skip(before.len() as int);
            assert(d1 =~= d0.push(r));
            assert(d1.to_set() =~= d0.to_set().insert(r)) by {
                lemma_with_distinct_set(d0, r);
                if d0.contains(r) {
                    assert forall|x: usize| d1.to_set().contains(x) <==> d0.to_set().insert(r).contains(x) by {
                        if d1.contains(x) {
                            let k = choose|k: int| 0 <= k < d1.len() && d1[k] == x;
                            if k < d0.len() {
                                assert(d0[k] == x);
                            }
                        }
                        if d0.contains(x) {
                            let k = choose|k: int| 0 <= k < d0.len() && d0[k] == x;
                            assert(d1[k] == x);
                        }
                    }
                } else {
                    assert(with_distinct(d0, r) == d1);
                }
            }
            assert(g.drawn().take(before.len() as int) =~= prev_drawn.take(before.len() as int));
            assert forall|k: int| 0 <= k < draws + 1 implies #[trigger] d1[k] < shard_count by {
                if k < draws {
                    assert(d1[k] == d0[k]);
                }
            }
        }
        add_distinct(&mut challenges, r);
        draws = draws + 1;
    }
    let ghost d = g.drawn().skip(before.len() as int);
    if challenges.len() < batch_size {
        let mut lowest: Vec<usize> = Vec::new();
        for i in 0..batch_size
            invariant
                batch_size <= shard_count,
                lowest@.len() == i,
                forall|k: int| 0 <= k < i ==> #[trigger] lowest@[k] == k,
        {
            lowest.push(i);
        }
        proof {
            assert(d.len() == usize::MAX);
            assert(lowest@ =~= Seq::new(batch_size as nat, |i: int| i as usize));
            assert forall|a: int, b: int| 0 <= a < b < lowest@.len() implies lowest@[a] < lowest@[b] by {
                assert(lowest@[a] == a);
                assert(lowest@[b] == b);
            }
            assert forall|k: int| 0 <= k < lowest@.len() implies #[trigger] lowest@[k] < shard_count by {
                assert(lowest@[k] == k);
            }
        }
        return lowest;
    }
    let sorted = crate::storage::sort_distinct(&challenges);
    proof {
        assert forall|k: int| 0 <= k < sorted@.len() implies #[trigger] sorted@[k] < shard_count by {
            assert(sorted@.to_set().contains(sorted@[k]));
            assert(challenges@.to_set().contains(sorted@[k]));
        }
    }
    sorted
}

/// A batch of `batch_size` distinct shard indices below `shard_count`,
/// drawn at random from the thread's generator until that many are chosen,
/// in increasing order. Should `usize::MAX` draws not suffice, the batch is
/// the lowest `batch_size` indices instead.
pub fn draw_challenge_batch(shard_count: usize, batch_size: usize) -> (r: Vec<usize>)
    requires
        shard_count > 0,
        batch_size <= shard_count,
    ensures
        r@.len() == batch_size,
        crate::storage::strictly_increasing(r@),
        forall|k: int| 0 <= k < r@.len() ==> #[trigger] r@[k] < shard_count,
{
    let mut g = ThreadDraws::new();
    draw_batch_from(&mut g, shard_count, batch_size)
}

} // verus!
