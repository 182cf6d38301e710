//! Turning bytes and text into field elements, SHA-256 digests, and the
//! hexadecimal forms used when exporting proofs.

use crate::field::{le_value, lemma_le_bound, lemma_le_concat, lemma_le_zero_padding, modulus, pow256, Fr};
use crate::poseidon2::{hash2, Poseidon2};
use sha2::{Digest, Sha256};
use vstd::prelude::*;
use vstd::string::{StrSliceExecFns, StringExecFns, StringSliceAdditionalSpecFns};

verus! {

/// The SHA-256 digest of `data`.
pub uninterp spec fn sha256_digest(data: Seq<u8>) -> Seq<u8>;

/// `sha2` `Sha256::digest`: the 32-byte SHA-256 digest of `data`.
#[verifier::external_body]
fn sha256(data: &[u8]) -> (r: [u8; 32])
    ensures
        r@ == sha256_digest(data@),
{
    Sha256::digest(data).into()
}

/// The SHA-256 digest of `data`.
pub fn sha256_bytes(data: &[u8]) -> (r: [u8; 32])
    ensures
        r@ == sha256_digest(data@),
{
    sha256(data)
}

/// Window `k` of a byte string cut into 31-byte windows (the last one may
/// be shorter).
pub open spec fn window(bytes: Seq<u8>, k: int) -> Seq<u8> {
    bytes.subrange(31 * k, if 31 * k + 31 <= bytes.len() { 31 * k + 31 } else { bytes.len() as int })
}

/// The number of 31-byte windows of `n` bytes.
pub open spec fn num_windows(n: nat) -> nat {
    (n + 30) / 31
}

/// The accumulator after absorbing the first `k` windows: it starts at the
/// byte length and each window's little-endian value is hashed in.
pub open spec fn absorb_windows(p: Poseidon2, bytes: Seq<u8>, k: nat) -> nat
    decreases k,
{
    if k == 0 {
        bytes.len()
    } else {
        hash2(p, absorb_windows(p, bytes, (k - 1) as nat), le_value(window(bytes, k - 1)))
    }
}

/// The windows a byte string is cut into are exactly its consecutive
/// 31-byte slices: there are `ceil(n / 31)` of them, none when the string is
/// empty; each is nonempty and starts where the one before ended, all but
/// the last hold 31 bytes, and the last ends at the end of the string.
pub proof fn lemma_windows_partition(bytes: Seq<u8>)
    ensures
        num_windows(bytes.len()) == 0 <==> bytes.len() == 0,
        bytes.len() > 0 ==> 31 * (num_windows(bytes.len()) - 1) < bytes.len() <= 31 * num_windows(bytes.len()),
        forall|k: int|
            0 <= k < num_windows(bytes.len()) ==> #[trigger] window(bytes, k).len() > 0 && window(bytes, k)
                == bytes.subrange(31 * k, 31 * k + window(bytes, k).len()),
        forall|k: int| 0 <= k < num_windows(bytes.len()) - 1 ==> #[trigger] window(bytes, k).len() == 31,
        bytes.len() > 0 ==> 31 * (num_windows(bytes.len()) - 1) + window(bytes, num_windows(bytes.len()) - 1).len()
            == bytes.len(),
{
    let n = bytes.len();
    let w = num_windows(n);
    assert(w == (n + 30) / 31);
    assert(31 * w <= n + 30 && n + 30 < 31 * w + 31) by {
        vstd::arithmetic::div_mod::lemma_fundamental_div_mod((n + 30) as int, 31);
    }
}

/// A byte string of at most 31 bytes is folded in one step: its value is
/// `H(n, v)` for its length `n` and little-endian value `v`, or `0` when it
/// is empty. A string of `31 * k + r` bytes (`0 < r <= 31`) is the fold of
/// its first `31 * k` bytes' windows, then `H(acc, v)` for the last `r`.
pub proof fn lemma_bytes_value_windows(p: Poseidon2, bytes: Seq<u8>)
    ensures
        bytes.len() == 0 ==> bytes_value(p, bytes) == 0,
        0 < bytes.len() <= 31 ==> bytes_value(p, bytes) == hash2(p, bytes.len() as nat, le_value(bytes)),
        bytes.len() > 31 ==> bytes_value(p, bytes) == hash2(
            p,
            absorb_windows(p, bytes, (num_windows(bytes.len()) - 1) as nat),
            le_value(bytes.subrange(31 * (num_windows(bytes.len()) - 1), bytes.len() as int)),
        ),
{
    lemma_windows_partition(bytes);
    let n = bytes.len();
    if 0 < n <= 31 {
        assert(num_windows(n) == 1);
        assert(window(bytes, 0) =~= bytes);
        reveal_with_fuel(absorb_windows, 2);
    } else if n > 31 {
        let w = num_windows(n);
        let last = window(bytes, w - 1);
        assert(last =~= bytes.subrange(31 * (w - 1), n as int));
    }
}

/// The field element that stands for a byte string: its length, with every
/// 31-byte window folded in by the 2-to-1 hash.
pub open spec fn bytes_value(p: Poseidon2, bytes: Seq<u8>) -> nat {
    absorb_windows(p, bytes, num_windows(bytes.len()))
}

proof fn lemma_pow256_monotone(a: nat, b: nat)
    requires
        a <= b,
    ensures
        pow256(a) <= pow256(b),
    decreases b,
{
    if a < b {
        lemma_pow256_monotone(a, (b - 1) as nat);
    }
}

/// At most 31 bytes encode a value below the field order.
pub proof fn lemma_window_fits(w: Seq<u8>)
    requires
        w.len() <= 31,
    ensures
        le_value(w) < modulus(),
{
    lemma_le_bound(w);
    lemma_pow256_monotone(w.len(), 31);
    reveal_with_fuel(pow256, 32);
    assert(pow256(31) == 0x100000000000000000000000000000000000000000000000000000000000000nat);
}

/// Folds `bytes` into one field element: the accumulator starts at the byte
/// length and each 31-byte window, read as a little-endian integer, is
/// hashed into it.
pub fn bytes_to_fr(p: &Poseidon2, bytes: &[u8]) -> (r: Fr)
    requires
        p.wf(),
    ensures
        r@ == bytes_value(*p, bytes@),
{
    let n = bytes.len();
    let mut acc = Fr::from_u64(n as u64);
    let count = n / 31 + if n % 31 == 0 { 0 } else { 1 };
    for k in 0..count
        invariant
            p.wf(),
            n == bytes@.len(),
            count == num_windows(n as nat),
            acc@ == absorb_windows(*p, bytes@, k as nat),
    {
        let start = 31 * k;
        let end = if n - start >= 31 { start + 31 } else { n };
        let mut repr = [0u8; 32];
        for j in 0..end - start
            invariant
                start < end <= n,
                end - start <= 31,
                n == bytes@.len(),
                forall|m: int| 0 <= m < j ==> repr@[m] == bytes@[start + m],
                forall|m: int| j <= m < 32 ==> repr@[m] == 0,
        {
            repr[j] = bytes[start + j];
        }
        let ghost w = window(bytes@, k as int);
        proof {
            let z = Seq::new((32 - (end - start)) as nat, |i: int| 0u8);
            assert(repr@ =~= w + z);
            lemma_le_zero_padding(w, z.len());
            lemma_window_fits(w);
        }
        let slice_fr = match Fr::from_repr(repr) {
            Some(x) => x,
            None => {
                repr[31] = 0;
                match Fr::from_repr(repr) {
                    Some(x) => x,
                    None => Fr::zero(),
                }
            },
        };
        acc = p.hash_2(&acc, &slice_fr);
    }
    acc
}

/// Folds the UTF-8 bytes of `value` into one field element.
pub fn string_to_fr(p: &Poseidon2, value: &str) -> (r: Fr)
    requires
        p.wf(),
    ensures
        r@ == bytes_value(*p, value.spec_bytes()),
{
    bytes_to_fr(p, value.as_bytes())
}

/// The little-endian 64-bit limb of `b` that starts at byte `off`.
fn le_limb(b: &[u8; 32], off: usize) -> (r: u64)
    requires
        off + 8 <= 32,
    ensures
        r == le_value(b@.subrange(off as int, off + 8)),
{
    let mut acc: u64 = 0;
    let mut j: usize = 8;
    proof {
        reveal_with_fuel(pow256, 9);
        assert(b@.subrange(off + 8, off + 8) =~= Seq::<u8>::empty());
    }
    while j > 0
        invariant
            off + 8 <= 32,
            j <= 8,
            acc == le_value(b@.subrange(off + j, off + 8)),
            acc < pow256((8 - j) as nat),
            pow256(7) == 0x100000000000000,
        decreases j,
    {
        j = j - 1;
        let ghost tail = b@.subrange(off + j + 1, off + 8);
        proof {
            lemma_le_bound(tail);
            assert(b@.subrange(off + j, off + 8).drop_first() =~= tail);
            lemma_pow256_monotone((8 - j - 1) as nat, 7);
            assert(pow256((8 - j) as nat) == 256 * pow256((8 - j - 1) as nat));
        }
        acc = acc * 256 + b[off + j] as u64;
    }
    acc
}

/// A SHA-256 digest of a shard's text, read as a little-endian 256-bit
/// integer and reduced into the field.
pub fn shard_text_to_field(shard_text: &str) -> (r: Fr)
    ensures
        r@ == le_value(sha256_digest(shard_text.spec_bytes())) % modulus(),
{
    let digest = sha256(shard_text.as_bytes());
    digest_to_field(&digest)
}

/// A 32-byte digest read as a little-endian 256-bit integer and reduced
/// into the field.
pub fn digest_to_field(digest: &[u8; 32]) -> (r: Fr)
    ensures
        r@ == le_value(digest@) % modulus(),
{
    let limbs = [le_limb(&digest, 0), le_limb(&digest, 8), le_limb(&digest, 16), le_limb(&digest, 24)];
    proof {
        let d = digest@;
        let s0 = d.subrange(0, 8);
        let s1 = d.subrange(8, 16);
        let s2 = d.subrange(16, 24);
        let s3 = d.subrange(24, 32);
        assert(d =~= s0 + (s1 + (s2 + s3)));
        lemma_le_concat(s2, s3);
        lemma_le_concat(s1, s2 + s3);
        lemma_le_concat(s0, s1 + (s2 + s3));
        reveal_with_fuel(pow256, 9);
        let p8 = pow256(8);
        assert(p8 == 0x1_0000_0000_0000_0000nat);
        let l0 = le_value(s0);
        let l1 = le_value(s1);
        let l2 = le_value(s2);
        let l3 = le_value(s3);
        assert(l0 + p8 * (l1 + p8 * (l2 + p8 * l3)) == l0 + 0x1_0000_0000_0000_0000nat * l1
            + 0x1_0000_0000_0000_0000_0000_0000_0000_0000nat * l2
            + 0x1_0000_0000_0000_0000_0000_0000_0000_0000_0000_0000_0000_0000nat * l3) by (nonlinear_arith)
            requires
                p8 == 0x1_0000_0000_0000_0000nat,
        ;
    }
    Fr::from_raw(limbs)
}

/// The lowercase hexadecimal digit for `n < 16`.
pub open spec fn hex_char(n: nat) -> char {
    if n < 10 {
        (48 + n) as char
    } else {
        (87 + n) as char
    }
}

/// The two lowercase hexadecimal digits of a byte.
pub open spec fn byte_hex(b: u8) -> Seq<char> {
    seq![hex_char(b as nat / 16), hex_char(b as nat % 16)]
}

/// The lowercase hexadecimal digits of a byte string, two per byte, in order.
pub open spec fn bytes_hex(s: Seq<u8>) -> Seq<char>
    decreases s.len(),
{
    if s.len() == 0 {
        Seq::empty()
    } else {
        bytes_hex(s.drop_last()) + byte_hex(s.last())
    }
}

fn hex_digit(n: u8) -> (r: &'static str)
    requires
        n < 16,
    ensures
        r@ == seq![hex_char(n as nat)],
{
    proof {
        reveal_strlit("0");
        reveal_strlit("1");
        reveal_strlit("2");
        reveal_strlit("3");
        reveal_strlit("4");
        reveal_strlit("5");
        reveal_strlit("6");
        reveal_strlit("7");
        reveal_strlit("8");
        reveal_strlit("9");
        reveal_strlit("a");
        reveal_strlit("b");
        reveal_strlit("c");
        reveal_strlit("d");
        reveal_strlit("e");
        reveal_strlit("f");
    }
    match n {
        0 => "0",
        1 => "1",
        2 => "2",
        3 => "3",
        4 => "4",
        5 => "5",
        6 => "6",
        7 => "7",
        8 => "8",
        9 => "9",
        10 => "a",
        11 => "b",
        12 => "c",
        13 => "d",
        14 => "e",
        _ => "f",
    }
}

/// Appends the two hexadecimal digits of `b`.
fn push_byte_hex(out: &mut String, b: u8)
    ensures
        final(out)@ == old(out)@ + byte_hex(b),
{
    out.append(hex_digit(b / 16));
    out.append(hex_digit(b % 16));
    proof {
        assert(seq![hex_char(b as nat / 16)] + seq![hex_char(b as nat % 16)] =~= byte_hex(b));
    }
}

/// `"0x"` followed by the lowercase hexadecimal digits of `bytes`.
pub fn prefixed_hex(bytes: &[u8]) -> (r: String)
    ensures
        r@ == "0x"@ + bytes_hex(bytes@),
{
    let mut out = String::new();
    out.append("0x");
    for i in 0..bytes.len()
        invariant
            out@ == "0x"@ + bytes_hex(bytes@.take(i as int)),
    {
        push_byte_hex(&mut out, bytes[i]);
        proof {
            assert(bytes@.take(i + 1).drop_last() =~= bytes@.take(i as int));
        }
    }
    proof {
        assert(bytes@.take(bytes@.len() as int) =~= bytes@);
    }
    out
}


/// A 32-byte encoding with the top three bits of its last byte cleared, so
/// that the value fits 253 bits.
pub open spec fn masked_top(s: Seq<u8>) -> Seq<u8> {
    s.update(31, s[31] & 0x1fu8)
}

/// The bytes of `s` in reverse order.
fn reversed(s: &[u8]) -> (r: Vec<u8>)
    ensures
        r@ == s@.reverse(),
{
    let mut r: Vec<u8> = Vec::new();
    let n = s.len();
    for i in 0..n
        invariant
            n == s@.len(),
            r@.len() == i,
            forall|k: int| 0 <= k < i ==> #[trigger] r@[k] == s@[n - 1 - k],
    {
        r.push(s[n - 1 - i]);
    }
    proof {
        assert(r@ =~= s@.reverse());
    }
    r
}

/// A field element as `"0x"` and the big-endian hexadecimal digits of its
/// encoding.
pub fn to_hex_reversed(x: &Fr) -> (r: String)
    ensures
        r@ == "0x"@ + bytes_hex(x.repr_bytes().reverse()),
{
    let bytes = x.to_repr();
    let rev = reversed(bytes.as_slice());
    prefixed_hex(rev.as_slice())
}

/// A field element as `"0x"` and the big-endian hexadecimal digits of its
/// encoding with the top three bits cleared, so that the exported value
/// stays below `2^253`.
pub fn to_safe_hex(x: &Fr) -> (r: String)
    ensures
        r@ == "0x"@ + bytes_hex(masked_top(x.repr_bytes()).reverse()),
{
    let mut bytes = x.to_repr();
    bytes[31] = bytes[31] & 0x1fu8;
    proof {
        assert(bytes@ =~= masked_top(x.repr_bytes()));
    }
    let rev = reversed(bytes.as_slice());
    prefixed_hex(rev.as_slice())
}

/// Whether `c` is a hexadecimal digit, in either case.
pub open spec fn is_hex_digit(c: char) -> bool {
    (48 <= c as u32 <= 57) || (97 <= c as u32 <= 102) || (65 <= c as u32 <= 70)
}

/// The value of a hexadecimal digit.
pub open spec fn hex_digit_value(c: char) -> nat {
    if c as u32 <= 57 {
        (c as u32 - 48) as nat
    } else if c as u32 <= 70 {
        (c as u32 - 55) as nat
    } else {
        (c as u32 - 87) as nat
    }
}

/// `s` with every leading `"0x"` removed.
pub open spec fn strip_hex_prefix(s: Seq<char>) -> Seq<char>
    decreases s.len(),
{
    if s.len() >= 2 && s[0] == '0' && s[1] == 'x' {
        strip_hex_prefix(s.subrange(2, s.len() as int))
    } else {
        s
    }
}

/// The bytes spelled by consecutive pairs of hexadecimal digits, the more
/// significant digit first.
pub open spec fn hex_pairs(s: Seq<char>) -> Seq<u8> {
    Seq::new(s.len() / 2, |i: int| (16 * hex_digit_value(s[2 * i]) + hex_digit_value(s[2 * i + 1])) as u8)
}

/// Whether `s` is at most 64 hexadecimal digits, the big-endian digits of
/// a value of at most 32 bytes.
pub open spec fn is_scalar_hex(s: Seq<char>) -> bool {
    s.len() <= 64 && forall|i: int| 0 <= i < s.len() ==> is_hex_digit(#[trigger] s[i])
}

/// At most 64 digits with zeros in front, to 64 digits.
pub open spec fn pad_hex(s: Seq<char>) -> Seq<char> {
    Seq::new(64, |q: int| if q < 64 - s.len() { '0' } else { s[q - (64 - s.len())] })
}

/// The value spelled by at most 64 big-endian hexadecimal digits.
pub open spec fn scalar_hex_value(s: Seq<char>) -> nat {
    le_value(hex_pairs(pad_hex(s)).reverse())
}

/// The value of a hexadecimal digit, or `None` for another character.
fn hex_nibble(c: char) -> (r: Option<u8>)
    ensures
        r is Some <==> is_hex_digit(c),
        r matches Some(v) ==> v as nat == hex_digit_value(c) && v < 16,
{
    let n = c as u32;
    if 48 <= n && n <= 57 {
        Some((n - 48) as u8)
    } else if 97 <= n && n <= 102 {
        Some((n - 87) as u8)
    } else if 65 <= n && n <= 70 {
        Some((n - 55) as u8)
    } else {
        None
    }
}

/// The field element written in big-endian hexadecimal digits, after any
/// leading `"0x"`, zeros taken in front up to 64 digits: `None` for more
/// than 64 digits, a character that is not a hexadecimal digit, or a value
/// not below the field order.
pub fn scalar_from_hex(text: &str) -> (r: Option<Fr>)
    ensures
        r is Some <==> (is_scalar_hex(strip_hex_prefix(text@)) && scalar_hex_value(strip_hex_prefix(text@))
            < modulus()),
        r matches Some(x) ==> x@ == scalar_hex_value(strip_hex_prefix(text@)),
{
    let len = text.unicode_len();
    let mut start: usize = 0;
    let mut stripping = true;
    proof {
        assert(text@.subrange(0, len as int) =~= text@);
    }
    while stripping
        invariant
            start <= len,
            len == text@.len(),
            strip_hex_prefix(text@.subrange(start as int, len as int)) == strip_hex_prefix(text@),
            !stripping ==> strip_hex_prefix(text@.subrange(start as int, len as int)) == text@.subrange(
                start as int,
                len as int,
            ),
        decreases len - start + (if stripping { 1int } else { 0int }),
    {
        if len - start >= 2 && text.get_char(start) == '0' && text.get_char(start + 1) == 'x' {
            proof {
                let s = text@.subrange(start as int, len as int);
                assert(s.subrange(2, s.len() as int) =~= text@.subrange(start + 2, len as int));
            }
            start = start + 2;
        } else {
            stripping = false;
        }
    }
    let ghost s = text@.subrange(start as int, len as int);
    if len - start > 64 {
        return None;
    }
    let off = 64 - (len - start);
    let ghost ps = pad_hex(s);
    let mut be: Vec<u8> = Vec::new();
    let mut i: usize = 0;
    while i < 32
        invariant
            s == text@.subrange(start as int, len as int),
            s == strip_hex_prefix(text@),
            s.len() <= 64,
            off == 64 - s.len(),
            ps == pad_hex(s),
            start + s.len() == len,
            len == text@.len(),
            i <= 32,
            be@.len() == i,
            forall|k: int| 0 <= k < 2 * i ==> is_hex_digit(#[trigger] ps[k]),
            forall|k: int| 0 <= k < i ==> #[trigger] be@[k] == hex_pairs(ps)[k],
        decreases 32 - i,
    {
        let q0 = 2 * i;
        let q1 = 2 * i + 1;
        let c0 = if q0 < off { '0' } else { text.get_char(start + (q0 - off)) };
        let c1 = if q1 < off { '0' } else { text.get_char(start + (q1 - off)) };
        proof {
            assert(ps[q0 as int] == c0);
            assert(ps[q1 as int] == c1);
        }
        let hi = hex_nibble(c0);
        let lo = hex_nibble(c1);
        match (hi, lo) {
            (Some(h), Some(l)) => {
                be.push(h * 16 + l);
                proof {
                    assert forall|k: int| 0 <= k < 2 * i + 2 implies is_hex_digit(#[trigger] ps[k]) by {
                        if k == 2 * i || k == 2 * i + 1 {
                        }
                    }
                }
            },
            _ => {
                proof {
                    if hi is None {
                        assert(!is_hex_digit(s[q0 - off]));
                    } else {
                        assert(!is_hex_digit(s[q1 - off]));
                    }
                }
                return None;
            },
        }
        i = i + 1;
    }
    proof {
        assert forall|k: int| 0 <= k < s.len() implies is_hex_digit(#[trigger] s[k]) by {
            assert(ps[k + off] == s[k]);
        }
    }
    let mut bytes = [0u8; 32];
    for k in 0..32
        invariant
            be@.len() == 32,
            forall|m: int| 0 <= m < k ==> #[trigger] bytes@[m] == be@[31 - m],
    {
        bytes[k] = be[31 - k];
    }
    proof {
        assert(be@ =~= hex_pairs(ps));
        assert(bytes@ =~= hex_pairs(ps).reverse());
    }
    Fr::from_repr(bytes)
}

/// A digit written for `n < 16` reads back as `n`, and is never `'x'`.
proof fn lemma_hex_char_reads_back(n: nat)
    requires
        n < 16,
    ensures
        is_hex_digit(hex_char(n)),
        hex_digit_value(hex_char(n)) == n,
        hex_char(n) != 'x',
{
}

/// The digits of a byte string come two per byte, the high nibble first.
proof fn lemma_bytes_hex_layout(s: Seq<u8>)
    ensures
        bytes_hex(s).len() == 2 * s.len(),
        forall|i: int|
            #![trigger s[i]]
            0 <= i < s.len() ==> bytes_hex(s)[2 * i] == hex_char(s[i] as nat / 16) && bytes_hex(s)[2 * i + 1]
                == hex_char(s[i] as nat % 16),
    decreases s.len(),
{
    if s.len() > 0 {
        let t = s.drop_last();
        lemma_bytes_hex_layout(t);
        assert forall|i: int| #![trigger s[i]] 0 <= i < s.len() implies bytes_hex(s)[2 * i] == hex_char(
            s[i] as nat / 16,
        ) && bytes_hex(s)[2 * i + 1] == hex_char(s[i] as nat % 16) by {
            if i < t.len() {
                assert(t[i] == s[i]);
            }
        }
    }
}

/// The text `"0x"` and the digits of 32 bytes reads back, past its prefix,
/// as 64 digits spelling those bytes.
proof fn lemma_prefixed_hex_reads_back(b: Seq<u8>)
    requires
        b.len() == 32,
    ensures
        is_scalar_hex(strip_hex_prefix("0x"@ + bytes_hex(b))),
        pad_hex(strip_hex_prefix("0x"@ + bytes_hex(b))) == strip_hex_prefix("0x"@ + bytes_hex(b)),
        hex_pairs(strip_hex_prefix("0x"@ + bytes_hex(b))) == b,
{
    reveal_strlit("0x");
    let h = bytes_hex(b);
    lemma_bytes_hex_layout(b);
    let s = "0x"@ + h;
    assert(s.subrange(2, s.len() as int) =~= h);
    assert(h[1] == hex_char(b[0] as nat % 16));
    lemma_hex_char_reads_back(b[0] as nat % 16);
    assert(strip_hex_prefix(h) == h);
    assert(pad_hex(h) =~= h);
    assert forall|i: int| 0 <= i < 64 implies is_hex_digit(#[trigger] h[i]) by {
        let k = i / 2;
        assert(b[k] == b[k]);
        lemma_hex_char_reads_back(b[k] as nat / 16);
        lemma_hex_char_reads_back(b[k] as nat % 16);
        if i % 2 == 0 {
            assert(i == 2 * k);
        } else {
            assert(i == 2 * k + 1);
        }
    }
    lemma_hex_pairs_invert(b);
}

/// Pairing the digits of a byte string gives the bytes back.
proof fn lemma_hex_pairs_invert(b: Seq<u8>)
    ensures
        hex_pairs(bytes_hex(b)) == b,
{
    let h = bytes_hex(b);
    lemma_bytes_hex_layout(b);
    assert forall|k: int| 0 <= k < b.len() implies #[trigger] hex_pairs(h)[k] == b[k] by {
        lemma_hex_char_reads_back(b[k] as nat / 16);
        lemma_hex_char_reads_back(b[k] as nat % 16);
        let v = b[k] as nat;
        assert(16 * (v / 16) + v % 16 == v);
    }
    assert(hex_pairs(h) =~= b);
}

/// The digest recorded for a proof binds it: the texts recorded for two
/// byte strings are equal exactly when their SHA-256 digests are.
pub proof fn lemma_recorded_digest_binds(a: Seq<u8>, b: Seq<u8>)
    ensures
        ("0x"@ + bytes_hex(sha256_digest(a)) == "0x"@ + bytes_hex(sha256_digest(b))) <==> sha256_digest(a)
            == sha256_digest(b),
{
    reveal_strlit("0x");
    let x = sha256_digest(a);
    let y = sha256_digest(b);
    let sx = "0x"@ + bytes_hex(x);
    let sy = "0x"@ + bytes_hex(y);
    if sx == sy {
        assert(sx.subrange(2, sx.len() as int) =~= bytes_hex(x));
        assert(sy.subrange(2, sy.len() as int) =~= bytes_hex(y));
        lemma_hex_pairs_invert(x);
        lemma_hex_pairs_invert(y);
    }
}

/// Reading back what `to_hex_reversed` writes for `x`, past its prefix,
/// finds 64 hexadecimal digits whose value is `x`.
pub proof fn lemma_hex_reversed_reads_back(x: Fr)
    ensures
        is_scalar_hex(strip_hex_prefix("0x"@ + bytes_hex(x.repr_bytes().reverse()))),
        scalar_hex_value(strip_hex_prefix("0x"@ + bytes_hex(x.repr_bytes().reverse()))) == x@,
{
    x.lemma_repr_bytes();
    let b = x.repr_bytes().reverse();
    lemma_prefixed_hex_reads_back(b);
    assert(b.reverse() =~= x.repr_bytes());
}

/// Reading back what `to_safe_hex` writes for `x`, past its prefix, finds
/// 64 hexadecimal digits whose value is `x` whenever `x < 2^253`, the values
/// whose top three bits are clear.
pub proof fn lemma_safe_hex_reads_back(x: Fr)
    requires
        x@ < 0x2000000000000000000000000000000000000000000000000000000000000000nat,
    ensures
        is_scalar_hex(strip_hex_prefix("0x"@ + bytes_hex(masked_top(x.repr_bytes()).reverse()))),
        scalar_hex_value(strip_hex_prefix("0x"@ + bytes_hex(masked_top(x.repr_bytes()).reverse()))) == x@,
{
    x.lemma_repr_bytes();
    let r = x.repr_bytes();
    let low = r.take(31);
    assert(r =~= low + seq![r[31]]);
    lemma_le_concat(low, seq![r[31]]);
    reveal_with_fuel(pow256, 32);
    reveal_with_fuel(le_value, 2);
    let top = r[31];
    assert(seq![top].drop_first() =~= Seq::<u8>::empty());
    assert(le_value(seq![top]) == top as nat);
    assert(pow256(31) == 0x100000000000000000000000000000000000000000000000000000000000000nat);
    assert(top < 32) by (nonlinear_arith)
        requires
            le_value(low) + 0x100000000000000000000000000000000000000000000000000000000000000nat * (top as nat)
                < 0x2000000000000000000000000000000000000000000000000000000000000000nat,
    ;
    assert(top & 0x1fu8 == top) by (bit_vector)
        requires
            top < 32,
    ;
    assert(masked_top(r) =~= r);
    let b = r.reverse();
    lemma_prefixed_hex_reads_back(b);
    assert(b.reverse() =~= r);
}

/// The digest recorded for a compressed proof: `"0x"` and the hexadecimal
/// digits of its SHA-256 digest.
pub fn spartan_proof_hash(proof_bytes: &[u8]) -> (r: String)
    ensures
        r@ == "0x"@ + bytes_hex(sha256_digest(proof_bytes@)),
{
    let digest = sha256(proof_bytes);
    digest_text(&digest)
}

/// The text recorded for a digest: `"0x"` and the hexadecimal digits of
/// its 32 bytes.
pub fn digest_text(digest: &[u8; 32]) -> (r: String)
    ensures
        r@ == "0x"@ + bytes_hex(digest@),
{
    prefixed_hex(digest.as_slice())
}

/// Whether a proof's bytes match the digest recorded for it.
pub fn proof_hash_matches(proof_bytes: &[u8], recorded: &str) -> (r: bool)
    ensures
        r == (("0x"@ + bytes_hex(sha256_digest(proof_bytes@))) == recorded@),
{
    let computed = spartan_proof_hash(proof_bytes);
    let claimed = recorded.to_owned();
    computed == claimed
}

} // verus!
