//! Hash-based signatures: Lamport one-time signatures, a binary Merkle tree
//! over their public keys, and the many-time scheme that couples the two.

/// BLAKE3 as the 32-byte hash `H`, and the pair compressor `H2`.
pub mod hash;
/// Lamport one-time signatures over 256-bit message digests.
pub mod lamport;
/// The many-time scheme: a Merkle commitment to a sequence of Lamport
/// public keys, and signatures that couple a Lamport signature with a
/// Merkle inclusion proof.
pub mod merkle;
