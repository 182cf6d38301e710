//! The outer wrapper proof that an on-chain verifier checks, as a fixed
//! placeholder.

use vstd::prelude::*;

verus! {

/// A proof of the outer wrapper: two points of G1 and one of G2, encoded.
#[derive(Clone, Copy, Debug)]
pub struct Groth16Proof {
    pub pi_a: [u8; 64],
    pub pi_b: [u8; 128],
    pub pi_c: [u8; 64],
}

/// The outer wrapper prover.
pub struct Groth16Wrapper;

impl Groth16Wrapper {
    /// The placeholder proof: every byte of `pi_a` is 1, of `pi_b` 2, and of
    /// `pi_c` 3.
    pub fn mock_prove() -> (r: Groth16Proof)
        ensures
            forall|i: int| 0 <= i < 64 ==> r.pi_a@[i] == 1u8,
            forall|i: int| 0 <= i < 128 ==> r.pi_b@[i] == 2u8,
            forall|i: int| 0 <= i < 64 ==> r.pi_c@[i] == 3u8,
    {
        Groth16Proof { pi_a: [1u8; 64], pi_b: [2u8; 128], pi_c: [3u8; 64] }
    }
}

} // verus!
