//! Building blocks of a STARK-style proof system: prime-field arithmetic,
//! dense polynomials, Merkle commitments, a Fiat-Shamir transcript and the
//! FRI low-degree test assembled from them.
pub mod channel;
pub mod encoding;
pub mod error;
pub mod fields;
pub mod fri;
pub mod merkle;
pub mod polynomial;
