//! Ring arithmetic over `Z_m[x]/(x^n + 1)` with balanced residues, and a
//! BFV-style homomorphic encryption scheme built on it.
pub mod arith;
pub mod bfv;
pub mod negacyclic;
pub mod noise;
pub mod polynomial;
pub mod ring_laws;
pub mod sampling;
pub mod sums;
