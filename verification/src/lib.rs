//! Engram proof-of-space-time: field elements, Poseidon2 hashing, sealing,
//! Merkle commitments, challenge derivation and the native form of the
//! proving step relation.

pub mod field;
pub mod poseidon2;
pub mod bits;
pub mod merkle_tree;
pub mod merkle;
pub mod encoding;
pub mod storage;
pub mod config;
pub mod sealing;
pub mod challenge;
pub mod circuit;
pub mod scenario;
pub mod report;
pub mod sector;
pub mod cbc_sector;
pub mod types;
pub mod api;
pub mod benchmark;
pub mod groth16;
pub mod client;
pub mod sampling;
pub mod beacon;
