//! Elements of the Pallas scalar field, held as their canonical
//! little-endian 32-byte encoding.

use ff::{Field, PrimeField};
use pasta_curves::pallas::Scalar as Fq;
use vstd::prelude::*;

verus! {

/// The order of the Pallas scalar field.
pub open spec fn modulus() -> nat {
    0x40000000000000000000000000000000224698fc0994a8dd8c46eb2100000001nat
}

/// Little-endian value of a byte string.
pub open spec fn le_value(s: Seq<u8>) -> nat
    decreases s.len(),
{
    if s.len() == 0 {
        0
    } else {
        s[0] as nat + 256 * le_value(s.drop_first())
    }
}

/// The value of a concatenation: the first part, plus the second part
/// scaled past the first.
pub proof fn lemma_le_concat(a: Seq<u8>, b: Seq<u8>)
    ensures
        le_value(a + b) == le_value(a) + pow256(a.len()) * le_value(b),
    decreases a.len(),
{
    if a.len() > 0 {
        let t = a.drop_first();
        assert((a + b).drop_first() =~= t + b);
        lemma_le_concat(t, b);
        assert((a + b)[0] == a[0]);
        let x = a[0] as nat;
        let lt = le_value(t);
        let lb = le_value(b);
        let pt = pow256(t.len());
        assert(t.len() == a.len() - 1);
        assert(le_value(t + b) == lt + pt * lb);
        assert(le_value(a + b) == x + 256 * le_value(t + b));
        assert(le_value(a) == x + 256 * lt);
        assert(pow256(a.len()) == 256 * pt);
        assert(x + 256 * (lt + pt * lb) == (x + 256 * lt) + (256 * pt) * lb) by (nonlinear_arith);
    } else {
        assert(a + b =~= b);
        assert(pow256(0) == 1);
    }
}

/// A value of `n` bytes is below `256^n`.
pub proof fn lemma_le_bound(s: Seq<u8>)
    ensures
        le_value(s) < pow256(s.len()),
    decreases s.len(),
{
    if s.len() > 0 {
        lemma_le_bound(s.drop_first());
        let r = le_value(s.drop_first());
        let b = pow256((s.len() - 1) as nat);
        assert(s[0] as nat + 256 * r < 256 * b) by (nonlinear_arith)
            requires
                s[0] < 256,
                r < b,
        ;
    }
}

/// Trailing zero bytes add nothing to the value.
pub proof fn lemma_le_zero_padding(s: Seq<u8>, n: nat)
    ensures
        le_value(s + Seq::new(n, |i: int| 0u8)) == le_value(s),
    decreases s.len() + n,
{
    let z = Seq::new(n, |i: int| 0u8);
    if s.len() > 0 {
        assert((s + z).drop_first() =~= s.drop_first() + z);
        lemma_le_zero_padding(s.drop_first(), n);
    } else if n > 0 {
        assert(s + z =~= z);
        assert(z.drop_first() =~= Seq::new((n - 1) as nat, |i: int| 0u8) + Seq::<u8>::empty());
        lemma_le_zero_padding(Seq::<u8>::empty(), (n - 1) as nat);
        assert(Seq::<u8>::empty() + Seq::new((n - 1) as nat, |i: int| 0u8) =~= Seq::new(
            (n - 1) as nat,
            |i: int| 0u8,
        ));
    } else {
        assert(s + z =~= s);
    }
}

/// The lowest byte of the encoding is the value modulo 256.
pub proof fn lemma_le_low_byte(s: Seq<u8>)
    requires
        s.len() > 0,
    ensures
        le_value(s) % 256 == s[0],
{
    let r = le_value(s.drop_first());
    assert((s[0] as nat + 256 * r) % 256 == s[0] as nat) by (nonlinear_arith)
        requires
            s[0] < 256,
    ;
}

/// `256^n`.
pub open spec fn pow256(n: nat) -> nat
    decreases n,
{
    if n == 0 {
        1
    } else {
        256 * pow256((n - 1) as nat)
    }
}

/// Field addition on values.
pub open spec fn fadd(a: nat, b: nat) -> nat {
    (a + b) % modulus()
}

/// Field multiplication on values.
pub open spec fn fmul(a: nat, b: nat) -> nat {
    (a * b) % modulus()
}

/// Field subtraction on values below the modulus.
pub open spec fn fsub(a: nat, b: nat) -> nat {
    ((a + modulus() - b) as nat) % modulus()
}

/// An element of the Pallas scalar field.
#[derive(Clone, Copy, Debug, PartialEq, Eq)]
pub struct Fr {
    repr: [u8; 32],
}

impl View for Fr {
    type V = nat;

    closed spec fn view(&self) -> nat {
        le_value(self.repr@)
    }
}

impl Fr {
    /// The canonical little-endian encoding.
    pub closed spec fn repr_bytes(&self) -> Seq<u8> {
        self.repr@
    }

    /// The encoding has 32 bytes and encodes the value.
    pub proof fn lemma_repr_bytes(&self)
        ensures
            self.repr_bytes().len() == 32,
            le_value(self.repr_bytes()) == self@,
    {
    }

    #[verifier::type_invariant]
    spec fn canonical(self) -> bool {
        le_value(self.repr@) < modulus()
    }
}

/// `pasta_curves` `Fq::ZERO`: the additive identity.
#[verifier::external_body]
fn fq_zero() -> (r: Fr)
    ensures
        r@ == 0,
{
    Fr { repr: <Fq as Field>::ZERO.to_repr() }
}

/// `pasta_curves` `Fq::ONE`: the multiplicative identity.
#[verifier::external_body]
fn fq_one() -> (r: Fr)
    ensures
        r@ == 1,
{
    Fr { repr: <Fq as Field>::ONE.to_repr() }
}

/// `pasta_curves` `From<u64> for Fq`: the element whose value is `n`.
#[verifier::external_body]
fn fq_from_u64(n: u64) -> (r: Fr)
    ensures
        r@ == n,
{
    Fr { repr: Fq::from(n).to_repr() }
}

/// `pasta_curves` `Fq + Fq`: sum modulo the field order.
#[verifier::external_body]
fn fq_add(a: &Fr, b: &Fr) -> (r: Fr)
    ensures
        r@ == fadd(a@, b@),
{
    let x = Fq::from_repr(a.repr).unwrap();
    let y = Fq::from_repr(b.repr).unwrap();
    Fr { repr: (x + y).to_repr() }
}

/// `pasta_curves` `Fq - Fq`: difference modulo the field order.
#[verifier::external_body]
fn fq_sub(a: &Fr, b: &Fr) -> (r: Fr)
    ensures
        r@ == fsub(a@, b@),
{
    let x = Fq::from_repr(a.repr).unwrap();
    let y = Fq::from_repr(b.repr).unwrap();
    Fr { repr: (x - y).to_repr() }
}

/// `pasta_curves` `Fq * Fq`: product modulo the field order.
#[verifier::external_body]
fn fq_mul(a: &Fr, b: &Fr) -> (r: Fr)
    ensures
        r@ == fmul(a@, b@),
{
    let x = Fq::from_repr(a.repr).unwrap();
    let y = Fq::from_repr(b.repr).unwrap();
    Fr { repr: (x * y).to_repr() }
}

/// `pasta_curves` `Fq::square`: the square modulo the field order.
#[verifier::external_body]
fn fq_square(a: &Fr) -> (r: Fr)
    ensures
        r@ == fmul(a@, a@),
{
    let x = Fq::from_repr(a.repr).unwrap();
    Fr { repr: x.square().to_repr() }
}

/// `pasta_curves` `PartialEq for Fq`: equality of field elements.
#[verifier::external_body]
fn fq_eq(a: &Fr, b: &Fr) -> (r: bool)
    ensures
        r == (a@ == b@),
{
    Fq::from_repr(a.repr).unwrap() == Fq::from_repr(b.repr).unwrap()
}

/// `pasta_curves` `PrimeField::from_repr`: the element whose canonical
/// little-endian encoding is `bytes`, or `None` when the value those bytes
/// encode is not below the field order.
#[verifier::external_body]
fn fq_from_repr(bytes: [u8; 32]) -> (r: Option<Fr>)
    ensures
        r is Some <==> le_value(bytes@) < modulus(),
        r matches Some(x) ==> x@ == le_value(bytes@),
{
    match Option::<Fq>::from(Fq::from_repr(bytes)) {
        Some(x) => Some(Fr { repr: x.to_repr() }),
        None => None,
    }
}

/// `pasta_curves` `Fq::from_raw`: the element congruent to the 256-bit
/// little-endian integer whose 64-bit limbs are given.
#[verifier::external_body]
fn fq_from_raw(limbs: [u64; 4]) -> (r: Fr)
    ensures
        r@ == (limbs[0] as nat + 0x1_0000_0000_0000_0000nat * limbs[1] as nat
            + 0x1_0000_0000_0000_0000_0000_0000_0000_0000nat * limbs[2] as nat
            + 0x1_0000_0000_0000_0000_0000_0000_0000_0000_0000_0000_0000_0000nat * limbs[3] as nat)
            % modulus(),
{
    Fr { repr: Fq::from_raw(limbs).to_repr() }
}

/// Whether `c` is one of the ASCII digits `0`..`9`.
pub open spec fn is_decimal_digit(c: char) -> bool {
    48 <= c as u32 <= 57
}

/// The value of a string of decimal digits, most significant first.
pub open spec fn decimal_value(s: Seq<char>) -> nat
    decreases s.len(),
{
    if s.len() == 0 {
        0
    } else {
        decimal_value(s.drop_last()) * 10 + (s.last() as u32 - 48) as nat
    }
}

/// The number a decimal numeral writes: none for empty text, for a
/// character that is not a digit, or for a leading zero in a numeral longer
/// than `"0"`.
pub open spec fn decimal_numeral(s: Seq<char>) -> Option<nat> {
    if s.len() == 0 || (s.len() > 1 && s[0] == '0') || exists|i: int| 0 <= i < s.len() && !is_decimal_digit(#[trigger] s[i]) {
        None
    } else {
        Some(decimal_value(s))
    }
}

/// `ff` `PrimeField::from_str_vartime` for `pasta_curves` `Fq`: the element
/// congruent to the number a decimal numeral writes, or `None` for text that
/// is no such numeral (empty, a non-digit, or a superfluous leading zero).
#[verifier::external_body]
fn fq_from_str_vartime(text: &str) -> (r: Option<Fr>)
    ensures
        r is Some <==> decimal_numeral(text@) is Some,
        r matches Some(x) ==> x@ == decimal_numeral(text@)->0 % modulus(),
{
    match Fq::from_str_vartime(text) {
        Some(x) => Some(Fr { repr: x.to_repr() }),
        None => None,
    }
}

/// The field element a decimal numeral writes, reduced modulo the field
/// order; `None` for text that is no decimal numeral.
pub fn decimal_to_fr(text: &str) -> (r: Option<Fr>)
    ensures
        r is Some <==> decimal_numeral(text@) is Some,
        r matches Some(x) ==> x@ == decimal_numeral(text@)->0 % modulus(),
{
    fq_from_str_vartime(text)
}

impl Fr {
    /// The additive identity.
    pub fn zero() -> (r: Fr)
        ensures
            r@ == 0,
    {
        fq_zero()
    }

    /// The multiplicative identity.
    pub fn one() -> (r: Fr)
        ensures
            r@ == 1,
    {
        fq_one()
    }

    /// The element whose value is `n`.
    pub fn from_u64(n: u64) -> (r: Fr)
        ensures
            r@ == n,
    {
        fq_from_u64(n)
    }

    /// Field addition.
    pub fn add(&self, other: &Fr) -> (r: Fr)
        ensures
            r@ == fadd(self@, other@),
    {
        fq_add(self, other)
    }

    /// Field subtraction.
    pub fn sub(&self, other: &Fr) -> (r: Fr)
        ensures
            r@ == fsub(self@, other@),
    {
        fq_sub(self, other)
    }

    /// Field multiplication.
    pub fn mul(&self, other: &Fr) -> (r: Fr)
        ensures
            r@ == fmul(self@, other@),
    {
        fq_mul(self, other)
    }

    /// Field squaring.
    pub fn square(&self) -> (r: Fr)
        ensures
            r@ == fmul(self@, self@),
    {
        fq_square(self)
    }

    /// Whether two elements are equal.
    pub fn equals(&self, other: &Fr) -> (r: bool)
        ensures
            r == (self@ == other@),
    {
        fq_eq(self, other)
    }

    /// The element encoded by `bytes`, when they encode a value below the
    /// field order.
    pub fn from_repr(bytes: [u8; 32]) -> (r: Option<Fr>)
        ensures
            r is Some <==> le_value(bytes@) < modulus(),
            r matches Some(x) ==> x@ == le_value(bytes@),
    {
        fq_from_repr(bytes)
    }

    /// The element congruent to the little-endian integer with these limbs.
    pub fn from_raw(limbs: [u64; 4]) -> (r: Fr)
        ensures
            r@ == (limbs[0] as nat + 0x1_0000_0000_0000_0000nat * limbs[1] as nat
                + 0x1_0000_0000_0000_0000_0000_0000_0000_0000nat * limbs[2] as nat
                + 0x1_0000_0000_0000_0000_0000_0000_0000_0000_0000_0000_0000_0000nat
                * limbs[3] as nat) % modulus(),
    {
        fq_from_raw(limbs)
    }

    /// The canonical little-endian encoding.
    pub fn to_repr(&self) -> (r: [u8; 32])
        ensures
            r@ == self.repr_bytes(),
            le_value(r@) == self@,
            self@ < modulus(),
    {
        proof {
            use_type_invariant(self);
        }
        self.repr
    }

    /// Every element is below the field order.
    pub fn value_bound(&self)
        ensures
            self@ < modulus(),
    {
        proof {
            use_type_invariant(self);
        }
    }
}

/// A vector holding the same elements as `s`.
pub fn elements_to_vec(s: &[Fr]) -> (r: Vec<Fr>)
    ensures
        r@ == s@,
{
    let mut r: Vec<Fr> = Vec::new();
    for i in 0..s.len()
        invariant
            r@ == s@.take(i as int),
    {
        r.push(s[i]);
        proof {
            assert(r@ =~= s@.take(i + 1));
        }
    }
    proof {
        assert(r@ =~= s@);
    }
    r
}


/// The value of a field element reduced modulo `n`.
pub fn value_mod(x: &Fr, n: u64) -> (r: u64)
    requires
        n > 0,
    ensures
        r as nat == x@ % (n as nat),
{
    let bytes = x.to_repr();
    let ghost s = bytes@;
    let nn = n as u128;
    let mut acc: u128 = 0;
    let mut k: usize = 32;
    proof {
        assert(s.skip(32) =~= Seq::<u8>::empty());
        vstd::arithmetic::div_mod::lemma_small_mod(0, n as nat);
    }
    while k > 0
        invariant
            s == bytes@,
            s.len() == 32,
            k <= 32,
            nn == n,
            n > 0,
            acc < nn,
            acc as nat == le_value(s.skip(k as int)) % (n as nat),
        decreases k,
    {
        k = k - 1;
        let b = bytes[k] as u128;
        let ghost tail = s.skip(k + 1);
        proof {
            assert(s.skip(k as int).drop_first() =~= tail);
            let t = le_value(tail);
            let m = n as int;
            assert(le_value(s.skip(k as int)) == s[k as int] as nat + 256 * t);
            vstd::arithmetic::div_mod::lemma_add_mod_noop(s[k as int] as int, 256 * t as int, m);
            vstd::arithmetic::div_mod::lemma_mul_mod_noop_right(256, t as int, m);
            vstd::arithmetic::div_mod::lemma_add_mod_noop(s[k as int] as int, 256 * (t as int % m), m);
            vstd::arithmetic::div_mod::lemma_mod_twice(256 * (t as int % m), m);
            assert(acc * 256 + b < 0x1_0000_0000_0000_0000_0000nat);
        }
        acc = (acc * 256 + b) % nn;
    }
    proof {
        assert(s.skip(0) =~= s);
    }
    acc as u64
}

} // verus!
