//! The native Poseidon2 permutation over a width-3 state, its 2-to-1
//! compression, and the compositions built from it.

use crate::field::{fadd, fmul, Fr};
use vstd::prelude::*;
use vstd::arithmetic::div_mod::{lemma_add_mod_noop, lemma_mod_twice, lemma_mul_mod_noop, lemma_small_mod};

verus! {

/// A width-3 state as field values.
pub type State = (nat, nat, nat);

/// The parameters of a width-3 Poseidon2 instance: the external (full
/// round) and internal (partial round) matrices, one round-constant row
/// per round, and the number of full and partial rounds.
pub struct Poseidon2 {
    pub mat_full: [[Fr; 3]; 3],
    pub mat_partial: [[Fr; 3]; 3],
    pub round_constants: Vec<[Fr; 3]>,
    pub full_rounds: usize,
    pub partial_rounds: usize,
}

impl Poseidon2 {
    /// One row of round constants for every round.
    pub open spec fn wf(&self) -> bool {
        &&& self.full_rounds + self.partial_rounds <= usize::MAX
        &&& self.round_constants@.len() == self.full_rounds + self.partial_rounds
    }

    /// Whether round `r` is a full round: the first and the last
    /// `full_rounds / 2` rounds are.
    pub open spec fn is_full_round(&self, r: nat) -> bool {
        r < self.full_rounds / 2 || r >= self.full_rounds / 2 + self.partial_rounds
    }
}

/// Entry `(i, j)` of a matrix, as a value.
pub open spec fn entry(m: [[Fr; 3]; 3], i: int, j: int) -> nat {
    m@[i]@[j]@
}

/// Row `i` of `m` times `s`, accumulated from zero in column order.
pub open spec fn mat_row(m: [[Fr; 3]; 3], i: int, s: State) -> nat {
    fadd(fadd(fadd(0, fmul(entry(m, i, 0), s.0)), fmul(entry(m, i, 1), s.1)), fmul(entry(m, i, 2), s.2))
}

/// The matrix-vector product `m * s`.
pub open spec fn mat_apply(m: [[Fr; 3]; 3], s: State) -> State {
    (mat_row(m, 0, s), mat_row(m, 1, s), mat_row(m, 2, s))
}

/// The S-box `x^5`, computed as `(x^2)^2 * x`.
pub open spec fn pow5(x: nat) -> nat {
    fmul(fmul(fmul(x, x), fmul(x, x)), x)
}

/// Round `r` applied to `s`: add the round constants, apply the S-box to
/// every lane in a full round and to lane 0 in a partial round, then mix
/// with the matrix of that kind of round.
pub open spec fn round(p: Poseidon2, r: nat, s: State) -> State {
    let c = p.round_constants@[r as int]@;
    let a = (fadd(s.0, c[0]@), fadd(s.1, c[1]@), fadd(s.2, c[2]@));
    if p.is_full_round(r) {
        mat_apply(p.mat_full, (pow5(a.0), pow5(a.1), pow5(a.2)))
    } else {
        mat_apply(p.mat_partial, (pow5(a.0), a.1, a.2))
    }
}

/// The first `n` rounds applied to `s`.
pub open spec fn rounds(p: Poseidon2, n: nat, s: State) -> State
    decreases n,
{
    if n == 0 {
        s
    } else {
        round(p, (n - 1) as nat, rounds(p, (n - 1) as nat, s))
    }
}

/// The 2-to-1 compression: the state `(left, right, 0)` is premixed with
/// the external matrix, run through every round, and lane 0 is the result.
pub closed spec fn hash2(p: Poseidon2, left: nat, right: nat) -> nat {
    rounds(p, p.full_rounds as nat + p.partial_rounds as nat, mat_apply(p.mat_full, (left, right, 0))).0
}

/// The 3-to-1 hash: the state `(a, b, c)` is premixed with the external
/// matrix, run through every round, and lane 0 is the result.
pub closed spec fn hash3(p: Poseidon2, a: nat, b: nat, c: nat) -> nat {
    rounds(p, p.full_rounds as nat + p.partial_rounds as nat, mat_apply(p.mat_full, (a, b, c))).0
}

/// Four inputs compressed as a binary tree: `H(H(a, b), H(c, d))`.
pub open spec fn hash4(p: Poseidon2, a: nat, b: nat, c: nat, d: nat) -> nat {
    hash2(p, hash2(p, a, b), hash2(p, c, d))
}

/// A sequence absorbed left to right into an accumulator that starts at
/// zero: `H(...H(H(0, v0), v1)..., vn)`.
pub open spec fn chain(p: Poseidon2, values: Seq<nat>) -> nat
    decreases values.len(),
{
    if values.len() == 0 {
        0
    } else {
        hash2(p, chain(p, values.drop_last()), values.last())
    }
}

/// The values of a sequence of field elements.
pub open spec fn values_of(s: Seq<Fr>) -> Seq<nat> {
    s.map_values(|x: Fr| x@)
}

/// Appending an element appends its value.
pub proof fn lemma_values_push(s: Seq<Fr>, x: Fr)
    ensures
        values_of(s.push(x)) == values_of(s).push(x@),
{
    assert(values_of(s.push(x)) =~= values_of(s).push(x@));
}

spec fn state_of(s: [Fr; 3]) -> State {
    (s@[0]@, s@[1]@, s@[2]@)
}

/// The S-box `x^5`.
pub fn sbox(x: &Fr) -> (r: Fr)
    ensures
        r@ == pow5(x@),
{
    let x2 = x.square();
    let x4 = x2.square();
    x4.mul(x)
}

/// The matrix-vector product `m * s`.
fn mat_mul(m: &[[Fr; 3]; 3], s: &[Fr; 3]) -> (r: [Fr; 3])
    ensures
        state_of(r) == mat_apply(*m, state_of(*s)),
{
    let mut out = [Fr::zero(), Fr::zero(), Fr::zero()];
    for i in 0..3
        invariant
            forall|k: int| 0 <= k < i ==> out@[k]@ == mat_row(*m, k, state_of(*s)),
    {
        let row = m[i];
        let mut acc = Fr::zero();
        acc = acc.add(&row[0].mul(&s[0]));
        acc = acc.add(&row[1].mul(&s[1]));
        acc = acc.add(&row[2].mul(&s[2]));
        out[i] = acc;
    }
    out
}

impl Poseidon2 {
    /// One round applied to `state`.
    fn apply_round(&self, r: usize, state: &[Fr; 3]) -> (out: [Fr; 3])
        requires
            self.wf(),
            r < self.full_rounds + self.partial_rounds,
        ensures
            state_of(out) == round(*self, r as nat, state_of(*state)),
    {
        let half_f = self.full_rounds / 2;
        let is_full = r < half_f || r >= half_f + self.partial_rounds;
        let c = self.round_constants[r];
        let a0 = state[0].add(&c[0]);
        let a1 = state[1].add(&c[1]);
        let a2 = state[2].add(&c[2]);
        let b0 = sbox(&a0);
        let b1 = if is_full { sbox(&a1) } else { a1 };
        let b2 = if is_full { sbox(&a2) } else { a2 };
        let mixed = [b0, b1, b2];
        if is_full {
            mat_mul(&self.mat_full, &mixed)
        } else {
            mat_mul(&self.mat_partial, &mixed)
        }
    }

    /// Lane 0 of the permutation of `init`: premixed with the external
    /// matrix and run through every round.
    fn permute_lane0(&self, init: &[Fr; 3]) -> (r: Fr)
        requires
            self.wf(),
        ensures
            r@ == rounds(*self, self.full_rounds as nat + self.partial_rounds as nat, mat_apply(self.mat_full, state_of(*init))).0,
    {
        let mut state = mat_mul(&self.mat_full, init);
        let total = self.full_rounds + self.partial_rounds;
        for r in 0..total
            invariant
                self.wf(),
                total == self.full_rounds + self.partial_rounds,
                state_of(state) == rounds(*self, r as nat, mat_apply(self.mat_full, state_of(*init))),
        {
            state = self.apply_round(r, &state);
        }
        state[0]
    }

    /// The 2-to-1 compression of `left` and `right`.
    pub fn native_poseidon2(&self, left: &Fr, right: &Fr) -> (r: Fr)
        requires
            self.wf(),
        ensures
            r@ == hash2(*self, left@, right@),
    {
        let init = [*left, *right, Fr::zero()];
        self.permute_lane0(&init)
    }

    /// The 3-to-1 hash of `a`, `b` and `c`.
    pub fn hash_3(&self, a: &Fr, b: &Fr, c: &Fr) -> (r: Fr)
        requires
            self.wf(),
        ensures
            r@ == hash3(*self, a@, b@, c@),
    {
        let init = [*a, *b, *c];
        self.permute_lane0(&init)
    }

    /// The 2-to-1 compression used throughout sealing and commitments.
    pub fn hash_2(&self, left: &Fr, right: &Fr) -> (r: Fr)
        requires
            self.wf(),
        ensures
            r@ == hash2(*self, left@, right@),
    {
        self.native_poseidon2(left, right)
    }

    /// Four inputs hashed as `H(H(a, b), H(c, d))`.
    pub fn poseidon2_hash_4(&self, a: &Fr, b: &Fr, c: &Fr, d: &Fr) -> (r: Fr)
        requires
            self.wf(),
        ensures
            r@ == hash4(*self, a@, b@, c@, d@),
    {
        let ab = self.hash_2(a, b);
        let cd = self.hash_2(c, d);
        self.hash_2(&ab, &cd)
    }

    /// A sequence absorbed left to right from a zero accumulator.
    pub fn poseidon2_chain(&self, values: &[Fr]) -> (r: Fr)
        requires
            self.wf(),
        ensures
            r@ == chain(*self, values_of(values@)),
    {
        let mut acc = Fr::zero();
        for i in 0..values.len()
            invariant
                self.wf(),
                acc@ == chain(*self, values_of(values@.take(i as int))),
        {
            proof {
                assert(values_of(values@.take(i + 1)).drop_last() =~= values_of(values@.take(i as int)));
            }
            acc = self.hash_2(&acc, &values[i]);
        }
        proof {
            assert(values@.take(values@.len() as int) =~= values@);
        }
        acc
    }
}


/// `x^5` in the field.
proof fn lemma_pow5_value(x: nat)
    ensures
        pow5(x) == (x * x * x * x * x) % crate::field::modulus(),
{
    let m = crate::field::modulus();
    let x2 = x * x;
    lemma_mul_mod_noop(x2 as int, x2 as int, m as int);
    lemma_mod_twice((x2 * x2) as int, m as int);
    lemma_mul_mod_noop((x2 * x2) as int, x as int, m as int);
    lemma_mod_twice(x as int, m as int);
    assert(fmul(x, x) == x2 % m);
    assert(fmul(fmul(x, x), fmul(x, x)) == (x2 * x2) % m);
    assert(pow5(x) == ((x2 * x2) % m * x) % m);
    assert(((x2 * x2) % m * x) % m == ((x2 * x2) % m * (x % m)) % m) by {
        lemma_mul_mod_noop(((x2 * x2) % m) as int, x as int, m as int);
        lemma_mod_twice((x2 * x2) as int, m as int);
    }
    assert(x2 * x2 * x == x * x * x * x * x) by (nonlinear_arith)
        requires
            x2 == x * x,
    ;
}

/// Row `i` of a matrix times a state, in the field.
proof fn lemma_row_value(mt: [[Fr; 3]; 3], i: int, s: State)
    ensures
        mat_row(mt, i, s) == (mt@[i]@[0]@ * s.0 + mt@[i]@[1]@ * s.1 + mt@[i]@[2]@ * s.2) % crate::field::modulus(),
{
    let m = crate::field::modulus();
    let p0 = mt@[i]@[0]@ * s.0;
    let p1 = mt@[i]@[1]@ * s.1;
    let p2 = mt@[i]@[2]@ * s.2;
    lemma_small_mod(0, m);
    assert(fadd(0, fmul(entry(mt, i, 0), s.0)) == p0 % m) by {
        lemma_mod_twice(p0 as int, m as int);
    }
    assert(fadd(p0 % m, fmul(entry(mt, i, 1), s.1)) == (p0 + p1) % m) by {
        lemma_add_mod_noop(p0 as int, p1 as int, m as int);
    }
    assert(fadd((p0 + p1) % m, fmul(entry(mt, i, 2), s.2)) == (p0 + p1 + p2) % m) by {
        lemma_add_mod_noop((p0 + p1) as int, p2 as int, m as int);
        lemma_mod_twice((p0 + p1) as int, m as int);
    }
}

/// The shape of a round, stated over plain field arithmetic: the round
/// constants are added to the three lanes; in the first `full_rounds / 2`
/// rounds and in the last ones, after the `partial_rounds` partial rounds,
/// every lane is raised to the fifth power and the state is multiplied by
/// the external matrix `mat_full`; in a partial round only lane 0 is raised
/// and the state is multiplied by the internal matrix `mat_partial`.
pub proof fn lemma_round_shape(p: Poseidon2, r: nat, s: State)
    ensures
        ({
            let md = crate::field::modulus();
            let c = p.round_constants@[r as int]@;
            let a0 = (s.0 + c[0]@) % md;
            let a1 = (s.1 + c[1]@) % md;
            let a2 = (s.2 + c[2]@) % md;
            let f0 = (a0 * a0 * a0 * a0 * a0) % md;
            let f1 = (a1 * a1 * a1 * a1 * a1) % md;
            let f2 = (a2 * a2 * a2 * a2 * a2) % md;
            let e = p.mat_full@;
            let q = p.mat_partial@;
            &&& (r < p.full_rounds / 2 || r >= p.full_rounds / 2 + p.partial_rounds) ==> round(p, r, s) == (
                (e[0]@[0]@ * f0 + e[0]@[1]@ * f1 + e[0]@[2]@ * f2) % md,
                (e[1]@[0]@ * f0 + e[1]@[1]@ * f1 + e[1]@[2]@ * f2) % md,
                (e[2]@[0]@ * f0 + e[2]@[1]@ * f1 + e[2]@[2]@ * f2) % md,
            )
            &&& (p.full_rounds / 2 <= r < p.full_rounds / 2 + p.partial_rounds) ==> round(p, r, s) == (
                (q[0]@[0]@ * f0 + q[0]@[1]@ * a1 + q[0]@[2]@ * a2) % md,
                (q[1]@[0]@ * f0 + q[1]@[1]@ * a1 + q[1]@[2]@ * a2) % md,
                (q[2]@[0]@ * f0 + q[2]@[1]@ * a1 + q[2]@[2]@ * a2) % md,
            )
        }),
{
    let c = p.round_constants@[r as int]@;
    let a0 = fadd(s.0, c[0]@);
    let a1 = fadd(s.1, c[1]@);
    let a2 = fadd(s.2, c[2]@);
    lemma_pow5_value(a0);
    lemma_pow5_value(a1);
    lemma_pow5_value(a2);
    let full = (pow5(a0), pow5(a1), pow5(a2));
    let part = (pow5(a0), a1, a2);
    lemma_row_value(p.mat_full, 0, full);
    lemma_row_value(p.mat_full, 1, full);
    lemma_row_value(p.mat_full, 2, full);
    lemma_row_value(p.mat_partial, 0, part);
    lemma_row_value(p.mat_partial, 1, part);
    lemma_row_value(p.mat_partial, 2, part);
}

/// The permutation behind the hashes runs `full_rounds + partial_rounds`
/// rounds, in order, after premixing the input with the external matrix:
/// lane 0 after the last round is the 3-to-1 hash, and the 2-to-1
/// compression is the 3-to-1 hash with a zero third input.
pub proof fn lemma_hash_is_permutation(p: Poseidon2, a: nat, b: nat, c: nat)
    ensures
        hash3(p, a, b, c) == rounds(
            p,
            p.full_rounds as nat + p.partial_rounds as nat,
            (mat_row(p.mat_full, 0, (a, b, c)), mat_row(p.mat_full, 1, (a, b, c)), mat_row(p.mat_full, 2, (a, b, c))),
        ).0,
        hash2(p, a, b) == hash3(p, a, b, 0),
        p.full_rounds as nat + p.partial_rounds as nat > 0 ==> rounds(
            p,
            p.full_rounds as nat + p.partial_rounds as nat,
            (mat_row(p.mat_full, 0, (a, b, c)), mat_row(p.mat_full, 1, (a, b, c)), mat_row(p.mat_full, 2, (a, b, c))),
        ) == round(
            p,
            (p.full_rounds + p.partial_rounds - 1) as nat,
            rounds(
                p,
                (p.full_rounds + p.partial_rounds - 1) as nat,
                (mat_row(p.mat_full, 0, (a, b, c)), mat_row(p.mat_full, 1, (a, b, c)), mat_row(p.mat_full, 2, (a, b, c))),
            ),
        ),
{
}

/// Every compression output is a field value.
pub proof fn lemma_hash2_bound(p: Poseidon2, left: nat, right: nat)
    ensures
        hash2(p, left, right) < crate::field::modulus(),
{
    lemma_rounds_bound(p, mat_apply(p.mat_full, (left, right, 0)));
}

/// Every 3-to-1 hash output is a field value.
pub proof fn lemma_hash3_bound(p: Poseidon2, a: nat, b: nat, c: nat)
    ensures
        hash3(p, a, b, c) < crate::field::modulus(),
{
    lemma_rounds_bound(p, mat_apply(p.mat_full, (a, b, c)));
}

/// Lane 0 after every round of a premixed state is a field value.
proof fn lemma_rounds_bound(p: Poseidon2, s0: State)
    requires
        s0.0 < crate::field::modulus(),
    ensures
        rounds(p, p.full_rounds as nat + p.partial_rounds as nat, s0).0 < crate::field::modulus(),
{
    let n = p.full_rounds as nat + p.partial_rounds as nat;
    if n > 0 {
        let prev = rounds(p, (n - 1) as nat, s0);
        assert(rounds(p, n, s0) == round(p, (n - 1) as nat, prev));
    }
}

} // verus!
