//! Tensor polynomial commitment over recursive linear-time encodable codes.
//!
//! A prover commits to a multi-dimensional array of prime-field elements by
//! encoding it axis-by-axis with a sparse linear code, hashing each encoded
//! fiber into a Merkle tree, and reducing the array level-by-level with random
//! linear combinations.  A verifier spot-checks sampled coordinates against
//! the code and the trees.

pub mod codegen;
pub mod codespec;
pub mod commit;
pub mod encode;
pub mod field;
pub mod hash;
pub mod linearity;
pub mod merkle;
pub mod rng;
pub mod simple_zk;
pub mod sparse;
pub mod tensor;
