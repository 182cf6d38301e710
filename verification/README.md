# engram

A proof-of-space-time system over the Pallas scalar field: sectors are sealed
with a Poseidon2 chain, committed in Merkle trees, and challenged epoch by
epoch; the prover folds one step per challenge with Nova and compresses the
result with Spartan.

- `src/` is the verified library (Verus): field elements and Poseidon2,
  Merkle trees and openings, sealing and storage (with the attack scenarios
  of the simulator), challenge derivation and selection, the native form of
  every step circuit with its failure modes, the hexadecimal export and
  read-back of public inputs and proof digests, and the verifier's deal
  registry. Each public function carries its contract; the `lemma_*` proof
  functions state the laws that tie the functions together.
- `app/` holds the programs: the benchmark simulator, the standalone prover,
  the three network layers (genesis parameters, prover, committee verifier),
  the demonstration, and the constraint systems of the step circuits, which
  implement the proof system's traits.
- `tests/` exercises the library on concrete values.

The Poseidon2 parameters are read at run time from the JSON file named by
`ENGRAM_POSEIDON2_PARAMS` (default `poseidon2_params.json`): the full and
the partial matrices and one row of round constants per round, each field
element as four little-endian 64-bit limbs.
