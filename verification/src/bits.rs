//! Binary digits of natural numbers, as the Merkle index binding and the
//! challenge binding read them.

use crate::field::{le_value, pow256};
use vstd::prelude::*;

verus! {

/// `2^n`.
pub open spec fn pow2(n: nat) -> nat
    decreases n,
{
    if n == 0 {
        1
    } else {
        2 * pow2((n - 1) as nat)
    }
}

/// `n` shifted right by `k` places.
pub open spec fn shr(n: nat, k: nat) -> nat
    decreases k,
{
    if k == 0 {
        n
    } else {
        shr(n / 2, (k - 1) as nat)
    }
}

/// Binary digit `k` of `n` (digit 0 is the least significant).
pub open spec fn bit(n: nat, k: nat) -> bool {
    shr(n, k) % 2 == 1
}

/// The first `len` binary digits of `n`, least significant first.
pub open spec fn low_bits(n: nat, len: nat) -> Seq<bool> {
    Seq::new(len, |k: int| bit(n, k as nat))
}

/// Whether `n` is a power of two, tested by halving.
pub open spec fn is_power_of_two(n: nat) -> bool
    decreases n,
{
    if n == 0 {
        false
    } else if n == 1 {
        true
    } else {
        n % 2 == 0 && is_power_of_two(n / 2)
    }
}

/// Shifting by one more place halves the shifted value.
pub proof fn lemma_shr_succ(n: nat, k: nat)
    ensures
        shr(n, k + 1) == shr(n, k) / 2,
    decreases k,
{
    assert(shr(n, k + 1) == shr(n / 2, k));
    if k > 0 {
        lemma_shr_succ(n / 2, (k - 1) as nat);
        assert(shr(n, k) == shr(n / 2, (k - 1) as nat));
    }
}

/// Shifting below `2^k` by `k` places leaves zero, and in general the
/// shifted value is below `2^(len - k)` when `n < 2^len`.
pub proof fn lemma_shr_bound(n: nat, len: nat, k: nat)
    requires
        n < pow2(len),
        k <= len,
    ensures
        shr(n, k) < pow2((len - k) as nat),
    decreases k,
{
    if k > 0 {
        lemma_shr_bound(n / 2, (len - 1) as nat, (k - 1) as nat);
    }
}

/// Two numbers below `2^len` with the same `len` low digits are equal.
pub proof fn lemma_low_bits_injective(a: nat, b: nat, len: nat)
    requires
        a < pow2(len),
        b < pow2(len),
        low_bits(a, len) == low_bits(b, len),
    ensures
        a == b,
    decreases len,
{
    if len > 0 {
        assert(pow2(len) == 2 * pow2((len - 1) as nat));
        assert(low_bits(a, len)[0] == bit(a, 0));
        assert(low_bits(b, len)[0] == bit(b, 0));
        assert(low_bits(a, len)[0] == low_bits(b, len)[0]);
        assert(shr(a, 0) == a && shr(b, 0) == b);
        assert(a % 2 == b % 2);
        assert forall|k: int| 0 <= k < len - 1 implies #[trigger] low_bits(a / 2, (len - 1) as nat)[k] == low_bits(
            b / 2,
            (len - 1) as nat,
        )[k] by {
            assert(low_bits(a, len)[k + 1] == bit(a, (k + 1) as nat));
            assert(low_bits(b, len)[k + 1] == bit(b, (k + 1) as nat));
            assert(low_bits(a, len)[k + 1] == low_bits(b, len)[k + 1]);
            assert(shr(a, (k + 1) as nat) == shr(a / 2, k as nat));
            assert(shr(b, (k + 1) as nat) == shr(b / 2, k as nat));
        }
        assert(low_bits(a / 2, (len - 1) as nat) =~= low_bits(b / 2, (len - 1) as nat));
        lemma_low_bits_injective(a / 2, b / 2, (len - 1) as nat);
    }
}

/// A power of two at least 2 is even, and its half is a power of two.
pub proof fn lemma_power_of_two_half(n: nat)
    requires
        is_power_of_two(n),
        n >= 2,
    ensures
        n % 2 == 0,
        is_power_of_two(n / 2),
        n / 2 < n,
{
}


/// `2^n` is positive.
pub proof fn lemma_pow2_pos(n: nat)
    ensures
        pow2(n) > 0,
    decreases n,
{
    if n > 0 {
        lemma_pow2_pos((n - 1) as nat);
    }
}

/// `2^(a + b) == 2^a * 2^b`.
pub proof fn lemma_pow2_add(a: nat, b: nat)
    ensures
        pow2(a + b) == pow2(a) * pow2(b),
    decreases a,
{
    if a > 0 {
        let a1 = (a - 1) as nat;
        lemma_pow2_add(a1, b);
        assert(pow2(a + b) == 2 * pow2(a1 + b));
        assert(pow2(a) == 2 * pow2(a1));
        let x = pow2(a1);
        let y = pow2(b);
        assert(2 * (x * y) == (2 * x) * y) by (nonlinear_arith);
    } else {
        assert(pow2(a) == 1);
        assert(a + b == b);
        let y = pow2(b);
        assert(1 * y == y);
    }
}

/// Shifting right by `k` places divides by `2^k`.
pub proof fn lemma_shr_div(n: nat, k: nat)
    ensures
        shr(n, k) == n / pow2(k),
    decreases k,
{
    lemma_pow2_pos(k);
    if k > 0 {
        let k1 = (k - 1) as nat;
        lemma_shr_div(n / 2, k1);
        lemma_pow2_pos(k1);
        assert(shr(n, k) == shr(n / 2, k1));
        assert(pow2(k) == 2 * pow2(k1));
        vstd::arithmetic::div_mod::lemma_div_denominator(n as int, 2, pow2(k1) as int);
    } else {
        assert(pow2(0) == 1);
        assert(n / 1 == n);
    }
}

/// The low `k + 1` digits add digit `k`, weighted by `2^k`, to the low `k`.
pub proof fn lemma_low_value_step(n: nat, k: nat)
    ensures
        n % pow2(k + 1) == n % pow2(k) + (if bit(n, k) { pow2(k) } else { 0 }),
{
    lemma_pow2_pos(k);
    lemma_shr_div(n, k);
    assert(pow2(k + 1) == pow2(k) * 2) by {
        assert(pow2(k + 1) == 2 * pow2(k));
    }
    vstd::arithmetic::div_mod::lemma_mod_breakdown(n as int, pow2(k) as int, 2);
    if bit(n, k) {
        assert((n / pow2(k)) % 2 == 1);
    } else {
        assert((n / pow2(k)) % 2 == 0);
    }
}

proof fn lemma_pow256_pow2(q: nat)
    ensures
        pow256(q) == pow2(8 * q),
    decreases q,
{
    if q > 0 {
        lemma_pow256_pow2((q - 1) as nat);
        lemma_pow2_add(8, (8 * (q - 1)) as nat);
        reveal_with_fuel(pow2, 9);
        assert(8 * q == 8 + 8 * (q - 1));
    }
}

proof fn lemma_le_div256(s: Seq<u8>, q: nat)
    requires
        q <= s.len(),
    ensures
        pow256(q) > 0,
        le_value(s) / pow256(q) == le_value(s.skip(q as int)),
    decreases q,
{
    if q == 0 {
        assert(s.skip(0) =~= s);
        assert(pow256(0) == 1);
        assert(le_value(s) / 1 == le_value(s));
    } else {
        let t = s.drop_first();
        let v = le_value(s);
        let w = le_value(t);
        let q1 = (q - 1) as nat;
        assert(v == s[0] as nat + 256 * w);
        assert(pow256(q) == 256 * pow256(q1));
        assert(v / 256 == w) by {
            vstd::arithmetic::div_mod::lemma_fundamental_div_mod_converse(v as int, 256, w as int, s[0] as int);
        }
        lemma_le_div256(t, q1);
        vstd::arithmetic::div_mod::lemma_div_denominator(v as int, 256, pow256(q1) as int);
        assert(t.skip(q1 as int) =~= s.skip(q as int));
        assert(v / pow256(q) == (v / 256) / pow256(q1));
    }
}

proof fn lemma_byte_digit(x: u8, r: nat)
    requires
        r < 8,
    ensures
        ((x as nat / pow2(r)) % 2 == 1) == ((x >> (r as u8)) & 1u8 == 1u8),
{
    reveal_with_fuel(pow2, 8);
    if r == 0 {
        assert(((x as nat / 1) % 2 == 1) == ((x >> 0u8) & 1u8 == 1u8)) by (bit_vector);
    } else if r == 1 {
        assert(((x as nat / 2) % 2 == 1) == ((x >> 1u8) & 1u8 == 1u8)) by (bit_vector);
    } else if r == 2 {
        assert(((x as nat / 4) % 2 == 1) == ((x >> 2u8) & 1u8 == 1u8)) by (bit_vector);
    } else if r == 3 {
        assert(((x as nat / 8) % 2 == 1) == ((x >> 3u8) & 1u8 == 1u8)) by (bit_vector);
    } else if r == 4 {
        assert(((x as nat / 16) % 2 == 1) == ((x >> 4u8) & 1u8 == 1u8)) by (bit_vector);
    } else if r == 5 {
        assert(((x as nat / 32) % 2 == 1) == ((x >> 5u8) & 1u8 == 1u8)) by (bit_vector);
    } else if r == 6 {
        assert(((x as nat / 64) % 2 == 1) == ((x >> 6u8) & 1u8 == 1u8)) by (bit_vector);
    } else {
        assert(((x as nat / 128) % 2 == 1) == ((x >> 7u8) & 1u8 == 1u8)) by (bit_vector);
    }
}

proof fn lemma_first_byte_digit(t: Seq<u8>, r: nat)
    requires
        t.len() > 0,
        r < 8,
    ensures
        (le_value(t) / pow2(r)) % 2 == (t[0] as nat / pow2(r)) % 2,
{
    let w = le_value(t.drop_first());
    let x = t[0] as nat;
    lemma_pow2_pos(r);
    lemma_pow2_pos((8 - r) as nat);
    lemma_pow2_add(r, (8 - r) as nat);
    reveal_with_fuel(pow2, 9);
    assert(pow2(8) == 256);
    let d = pow2(r);
    let e = pow2((8 - r) as nat);
    assert(r + (8 - r) as nat == 8);
    assert(d * e == 256);
    assert(le_value(t) == x + 256 * w);
    assert((w * e) * d == 256 * w) by (nonlinear_arith)
        requires
            d * e == 256,
    ;
    vstd::arithmetic::div_mod::lemma_hoist_over_denominator(x as int, (w * e) as int, d);
    assert(e % 2 == 0) by {
        assert(e == 2 * pow2((7 - r) as nat));
    }
    assert((x / d + w * e) % 2 == (x / d) % 2) by {
        vstd::arithmetic::div_mod::lemma_mod_multiples_vanish((w * (e / 2)) as int, (x / d) as int, 2);
        vstd::arithmetic::mul::lemma_mul_is_associative(w as int, (e / 2) as int, 2);
    }
}

/// Binary digit `k` of a little-endian byte string's value is bit `k % 8`
/// of byte `k / 8`.
pub proof fn lemma_repr_bit(s: Seq<u8>, k: nat)
    requires
        k < 8 * s.len(),
    ensures
        bit(le_value(s), k) == ((s[(k / 8) as int] >> ((k % 8) as u8)) & 1u8 == 1u8),
{
    let q = k / 8;
    let r = k % 8;
    let n = le_value(s);
    lemma_shr_div(n, k);
    lemma_pow2_add(8 * q, r);
    lemma_pow256_pow2(q);
    lemma_pow2_pos(r);
    lemma_le_div256(s, q);
    vstd::arithmetic::div_mod::lemma_div_denominator(n as int, pow256(q) as int, pow2(r) as int);
    let t = s.skip(q as int);
    lemma_first_byte_digit(t, r);
    lemma_byte_digit(t[0], r);
}

/// Binary digit `k` of the value of a 32-byte little-endian encoding.
pub fn repr_bit(bytes: &[u8; 32], k: usize) -> (r: bool)
    requires
        k < 256,
    ensures
        r == bit(le_value(bytes@), k as nat),
{
    proof {
        lemma_repr_bit(bytes@, k as nat);
    }
    let b = bytes[k / 8];
    let shift = (k % 8) as u8;
    (b >> shift) & 1u8 == 1u8
}


/// `2^n` grows with `n`.
pub proof fn lemma_pow2_monotone(a: nat, b: nat)
    requires
        a <= b,
    ensures
        pow2(a) <= pow2(b),
{
    lemma_pow2_add(a, (b - a) as nat);
    lemma_pow2_pos((b - a) as nat);
    lemma_pow2_pos(a);
    let x = pow2(a);
    let y = pow2((b - a) as nat);
    assert(x <= x * y) by (nonlinear_arith)
        requires
            y >= 1,
            x >= 1,
    ;
}


/// `2^n` is a power of two.
pub proof fn lemma_pow2_is_power_of_two(n: nat)
    ensures
        is_power_of_two(pow2(n)),
    decreases n,
{
    if n > 0 {
        lemma_pow2_is_power_of_two((n - 1) as nat);
        lemma_pow2_pos((n - 1) as nat);
        let h = pow2((n - 1) as nat);
        assert(pow2(n) == 2 * h);
        assert((2 * h) / 2 == h);
    }
}

/// Powers of two are equal only for equal exponents.
pub proof fn lemma_pow2_log(a: nat, b: nat)
    requires
        pow2(a) == pow2(b),
    ensures
        a == b,
    decreases a,
{
    if a > 0 && b > 0 {
        lemma_pow2_log((a - 1) as nat, (b - 1) as nat);
    } else if a > 0 {
        lemma_pow2_pos((a - 1) as nat);
    } else if b > 0 {
        lemma_pow2_pos((b - 1) as nat);
    }
}

} // verus!
