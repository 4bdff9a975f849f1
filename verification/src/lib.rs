//! Lattice-based cryptography primitives: modular arithmetic, polynomial rings,
//! NTRU, Ring-LWE key exchange, LWE and a small identity layer, with contracts
//! checked by Verus.

use vstd::prelude::*;

pub mod identity;
pub mod lattice;
pub mod lwe;
pub mod ntru;
pub mod ring_lwe;
pub mod ring_algebra;
pub mod rlwe_kex;
pub mod sums;
pub mod util;

verus! {

/// Common error type for lattice-crypto operations.
#[derive(Debug, Clone, PartialEq)]
pub enum LatticeError {
    /// A dimension mismatch was detected.
    DimensionMismatch { expected: usize, found: usize },
    /// A modulus-related error (e.g., non-positive modulus).
    InvalidModulus(i64),
    /// Sampling failed after maximum retries.
    SamplingFailed,
    /// Matrix is not square where required.
    NotSquare,
}

} // verus!
