//! Commitments and dispute resolution for verifiable off-chain inference.
//!
//! A model is a sequence of operators. Each operator is committed to as a
//! leaf of a Merkle tree; an execution is committed to as a trace of
//! (input hash, output hash) pairs; a disagreement between two traces is
//! narrowed by bisection to one operator, which a succinct proof settles.

pub mod bisection;
pub mod bytes;
pub mod cli;
pub mod digest;
pub mod dispute;
pub mod inputs;
pub mod keyed;
pub mod merkle;
pub mod node;
pub mod operator_proof;
pub mod public_values;
pub mod registry;
pub mod tensor;
pub mod tensor_map;
pub mod trace;
