//! A sparse Merkle tree over a key-value data backend.

pub mod opening;
pub mod preserve;
pub mod compound;
pub mod laws;
pub mod mutate;
pub mod read;
pub mod smt;
