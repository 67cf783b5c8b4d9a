//! A state-vector quantum circuit simulator.
//!
//! The register's joint amplitude vector is evolved by per-column composite
//! gates assembled with Kronecker products; the simulator supports
//! mid-circuit measurement with collapse and renormalization, classical
//! control wires, density matrices with iterated partial trace, and
//! per-qubit Bloch vectors.
//!
//! All real quantities are fixed-point: an `i64` holds `value * SCALE`
//! (`SCALE = 2^16`), so every arithmetic step has an exact integer
//! specification.

pub mod circuit;
pub mod complex;
pub mod display;
pub mod gates;
pub mod laws;
pub mod matrix;
pub mod qubit;
pub mod trig;
