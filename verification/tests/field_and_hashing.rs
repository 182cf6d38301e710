use engram::encoding::{
    bytes_to_fr, digest_text, digest_to_field, prefixed_hex, proof_hash_matches, scalar_from_hex, sha256_bytes, shard_text_to_field,
    spartan_proof_hash, string_to_fr, to_hex_reversed, to_safe_hex,
};
use engram::field::{decimal_to_fr, elements_to_vec, value_mod, Fr};
use engram::poseidon2::{sbox, Poseidon2};

fn params() -> Poseidon2 {
    let f = Fr::from_u64;
    let mat_full = [[f(2), f(1), f(1)], [f(1), f(2), f(1)], [f(1), f(1), f(2)]];
    let mat_partial = [[f(2), f(1), f(1)], [f(1), f(2), f(1)], [f(1), f(1), f(3)]];
    let mut round_constants = Vec::new();
    for r in 0..64u64 {
        round_constants.push([f(3 * r + 1), f(3 * r + 2), f(3 * r + 3)]);
    }
    Poseidon2 { mat_full, mat_partial, round_constants, full_rounds: 8, partial_rounds: 56 }
}

const MODULUS_MINUS_ONE_LE: [u8; 32] = [
    0x00, 0x00, 0x00, 0x00, 0x21, 0xeb, 0x46, 0x8c, 0xdd, 0xa8, 0x94, 0x09, 0xfc, 0x98, 0x46, 0x22, 0x00, 0x00,
    0x00, 0x00, 0x00, 0x00, 0x00, 0x00, 0x00, 0x00, 0x00, 0x00, 0x00, 0x00, 0x00, 0x40,
];

#[test]
fn field_arithmetic_wraps_at_the_order() {
    let zero = Fr::zero();
    let one = Fr::one();
    let minus_one = zero.sub(&one);
    assert_eq!(minus_one.to_repr(), MODULUS_MINUS_ONE_LE);
    assert_eq!(minus_one.add(&one), zero);
    assert_eq!(Fr::from_u64(6).mul(&Fr::from_u64(7)), Fr::from_u64(42));
    assert_eq!(Fr::from_u64(9).square(), Fr::from_u64(81));
    assert!(Fr::from_u64(5).equals(&Fr::from_u64(5)));
    assert!(!Fr::from_u64(5).equals(&Fr::from_u64(6)));
}

#[test]
fn encodings_round_trip_and_reject_noncanonical() {
    let mut bytes = [0u8; 32];
    bytes[0] = 0x34;
    bytes[1] = 0x12;
    assert_eq!(Fr::from_repr(bytes), Some(Fr::from_u64(0x1234)));
    assert_eq!(Fr::from_u64(0x1234).to_repr(), bytes);
    assert_eq!(Fr::from_repr([0xffu8; 32]), None);
    assert_eq!(Fr::from_raw([5, 0, 0, 0]), Fr::from_u64(5));
    assert_eq!(Fr::from_raw([0, 1, 0, 0]).to_repr()[8], 1);
}

#[test]
fn value_mod_reduces_the_value() {
    assert_eq!(value_mod(&Fr::from_u64(1000), 7), 1000 % 7);
    assert_eq!(value_mod(&Fr::from_u64(u64::MAX), 1 << 20), u64::MAX % (1 << 20));
    let minus_one = Fr::zero().sub(&Fr::one());
    assert_eq!(value_mod(&minus_one, 256), 0);
    assert_eq!(value_mod(&minus_one, 1), 0);
}

#[test]
fn sbox_is_the_fifth_power() {
    assert_eq!(sbox(&Fr::from_u64(2)), Fr::from_u64(32));
    assert_eq!(sbox(&Fr::from_u64(3)), Fr::from_u64(243));
}

#[test]
fn compositions_of_the_compression() {
    let p = params();
    let a = Fr::from_u64(1);
    let b = Fr::from_u64(2);
    let c = Fr::from_u64(3);
    let d = Fr::from_u64(4);
    let h = p.hash_2(&a, &b);
    assert_eq!(h, p.native_poseidon2(&a, &b));
    assert_ne!(h, p.hash_2(&b, &a));
    let ab = p.hash_2(&a, &b);
    let cd = p.hash_2(&c, &d);
    assert_eq!(p.poseidon2_hash_4(&a, &b, &c, &d), p.hash_2(&ab, &cd));
    assert_eq!(p.poseidon2_chain(&[]), Fr::zero());
    let first = p.hash_2(&Fr::zero(), &a);
    assert_eq!(p.poseidon2_chain(&[a]), first);
    assert_eq!(p.poseidon2_chain(&[a, b]), p.hash_2(&first, &b));
}

#[test]
fn bytes_fold_length_then_windows() {
    let p = params();
    assert_eq!(bytes_to_fr(&p, &[]), Fr::zero());
    let abc = bytes_to_fr(&p, b"abc");
    let window = Fr::from_u64(0x636261);
    assert_eq!(abc, p.hash_2(&Fr::from_u64(3), &window));
    assert_eq!(string_to_fr(&p, "abc"), abc);
    let long = [1u8; 40];
    let mut w0 = [0u8; 32];
    w0[..31].copy_from_slice(&[1u8; 31]);
    let mut w1 = [0u8; 32];
    w1[..9].copy_from_slice(&[1u8; 9]);
    let acc = p.hash_2(&Fr::from_u64(40), &Fr::from_repr(w0).unwrap());
    assert_eq!(bytes_to_fr(&p, &long), p.hash_2(&acc, &Fr::from_repr(w1).unwrap()));
}

#[test]
fn sha256_digest_of_abc() {
    let digest = sha256_bytes(b"abc");
    assert_eq!(
        prefixed_hex(&digest),
        "0xba7816bf8f01cfea414140de5dae2223b00361a396177a9cb410ff61f20015ad"
    );
}

#[test]
fn shard_value_is_the_digest_reduced() {
    let digest = sha256_bytes(b"abc");
    let mut limbs = [0u64; 4];
    for (k, limb) in limbs.iter_mut().enumerate() {
        let mut b = [0u8; 8];
        b.copy_from_slice(&digest[8 * k..8 * k + 8]);
        *limb = u64::from_le_bytes(b);
    }
    assert_eq!(shard_text_to_field("abc"), Fr::from_raw(limbs));
}

#[test]
fn hex_exports() {
    assert_eq!(prefixed_hex(&[0xab, 0x01]), "0xab01");
    assert_eq!(prefixed_hex(&[]), "0x");
    let one = to_hex_reversed(&Fr::one());
    assert_eq!(one.len(), 66);
    assert!(one.starts_with("0x00"));
    assert!(one.ends_with("01"));
    let minus_one = Fr::zero().sub(&Fr::one());
    assert_eq!(
        to_hex_reversed(&minus_one),
        "0x40000000000000000000000000000000224698fc0994a8dd8c46eb2100000000"
    );
    assert_eq!(
        to_safe_hex(&minus_one),
        "0x00000000000000000000000000000000224698fc0994a8dd8c46eb2100000000"
    );
    assert_eq!(to_safe_hex(&Fr::from_u64(0xabcd)), format!("0x{}abcd", "0".repeat(60)));
}

#[test]
fn proof_digest_and_its_check() {
    let proof = b"compressed proof bytes";
    let h = spartan_proof_hash(proof);
    assert_eq!(h.len(), 2 + 64);
    assert!(h.starts_with("0x"));
    let full = prefixed_hex(&sha256_bytes(proof));
    assert_eq!(full, h);
    assert!(!proof_hash_matches(proof, &h[..64]));
    assert!(proof_hash_matches(proof, &h));
    assert!(!proof_hash_matches(b"other bytes", &h));
}

#[test]
fn elements_copy() {
    let v = elements_to_vec(&[Fr::from_u64(1), Fr::from_u64(2)]);
    assert_eq!(v, vec![Fr::from_u64(1), Fr::from_u64(2)]);
}

#[test]
fn exported_hex_reads_back() {
    let p = params();
    let x = p.hash_2(&Fr::from_u64(5), &Fr::from_u64(9));
    assert_eq!(scalar_from_hex(&to_hex_reversed(&x)), Some(x));
    let minus_one = Fr::zero().sub(&Fr::one());
    assert_eq!(scalar_from_hex(&to_hex_reversed(&minus_one)), Some(minus_one));
    let small = Fr::from_u64(0xdead_beef);
    assert_eq!(scalar_from_hex(&to_safe_hex(&small)), Some(small));
    // The top three bits are cleared on export, so a large value comes back reduced.
    let back = scalar_from_hex(&to_safe_hex(&minus_one)).unwrap();
    assert_ne!(back, minus_one);
    assert_eq!(back.to_repr()[31], minus_one.to_repr()[31] & 0x1f);
}

#[test]
fn hex_reading_refuses_malformed_text() {
    let digits = "00000000000000000000000000000000000000000000000000000000000000ff";
    assert_eq!(scalar_from_hex(digits), Some(Fr::from_u64(255)));
    assert_eq!(scalar_from_hex(&format!("0x0x{}", digits)), Some(Fr::from_u64(255)));
    assert_eq!(scalar_from_hex(&digits.to_uppercase()), Some(Fr::from_u64(255)));
    assert_eq!(scalar_from_hex(&digits[1..]), Some(Fr::from_u64(255)));
    assert_eq!(scalar_from_hex("0x01"), Some(Fr::one()));
    assert_eq!(scalar_from_hex("0xabc"), Some(Fr::from_u64(0xabc)));
    assert_eq!(scalar_from_hex("0x"), Some(Fr::zero()));
    assert_eq!(scalar_from_hex(""), Some(Fr::zero()));
    assert_eq!(scalar_from_hex(&format!("{}0", digits)), None);
    assert_eq!(scalar_from_hex(&digits.replace('f', "g")), None);
    assert_eq!(scalar_from_hex("0x1g"), None);
    // The field order itself is not a canonical element.
    let order = "40000000000000000000000000000000224698fc0994a8dd8c46eb2100000001";
    assert_eq!(scalar_from_hex(order), None);
    let below = "40000000000000000000000000000000224698fc0994a8dd8c46eb2100000000";
    assert_eq!(scalar_from_hex(below), Some(Fr::zero().sub(&Fr::one())));
}

#[test]
fn digests_reduce_and_print() {
    let mut d = [0u8; 32];
    d[0] = 5;
    assert_eq!(digest_to_field(&d), Fr::from_u64(5));
    let mut order = MODULUS_MINUS_ONE_LE;
    order[0] = 1;
    assert_eq!(digest_to_field(&order), Fr::zero());
    let mut above = order;
    above[0] = 3;
    assert_eq!(digest_to_field(&above), Fr::from_u64(2));
    let mut digest = [0u8; 32];
    for (i, b) in digest.iter_mut().enumerate() {
        *b = i as u8;
    }
    let text = digest_text(&digest);
    assert_eq!(text.len(), 2 + 64);
    assert!(text.starts_with("0x000102"));
    assert!(text.ends_with("1c1d1e1f"));
}

#[test]
fn decimal_numerals_read_into_the_field() {
    assert_eq!(decimal_to_fr("0"), Some(Fr::zero()));
    assert_eq!(decimal_to_fr("12345"), Some(Fr::from_u64(12345)));
    assert_eq!(decimal_to_fr(""), None);
    assert_eq!(decimal_to_fr("007"), None);
    assert_eq!(decimal_to_fr("12a"), None);
    assert_eq!(decimal_to_fr("-1"), None);
    let order = "28948022309329048855892746252171976963363056481941647379679742748393362948097";
    assert_eq!(decimal_to_fr(order), Some(Fr::zero()));
    let order_plus_five = "28948022309329048855892746252171976963363056481941647379679742748393362948102";
    assert_eq!(decimal_to_fr(order_plus_five), Some(Fr::from_u64(5)));
}
