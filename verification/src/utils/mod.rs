//! Shared primitives: multilinear polynomials, the randomness oracle, sumcheck
//! and Merkle commitments.
pub mod merkle;
pub mod oracle;
pub mod poly;
pub mod sumcheck;
