//! Merkle inclusion proofs checked against a trusted root digest, with a
//! cache of already proven digests that is shared across a batch.

pub mod digest;
pub mod hasher;
pub mod helpers;
pub mod model;
pub mod wire;
pub mod inclusion;
pub mod laws;

pub use digest::Digest;
pub use hasher::{BundleHasher, Hasher, Verifier};
pub use inclusion::Proof;
